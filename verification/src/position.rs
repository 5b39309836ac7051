//! Positions and moves: the state of a game and the step from one state to
//! the next.

use vstd::prelude::*;
use vstd::array::spec_array_update;
use vstd::std_specs::bits::axiom_u64_trailing_zeros;
use vstd::std_specs::bits::u64_trailing_zeros;
use vstd::string::StringExecFns;
use crate::attacks::Attacks;
use crate::bits::bit;
use crate::bits::lemma_bit_empty;
use crate::bits::lemma_bit_ops;
use crate::bits::lemma_bit_witness;
use crate::bits::lemma_byte_ops;
use crate::bits::only;
use crate::consts::CASTLE_MASK;
use crate::consts::Flag;
use crate::consts::Piece;
use crate::consts::ROOK_MOVES;
use crate::effects::board_after;
use crate::effects::lemma_make_on_board;
use crate::geometry::bishop_sees;
use crate::geometry::king_step;
use crate::geometry::knight_step;
use crate::geometry::pawn_attack;
use crate::geometry::rook_sees;

verus! {

/// One move: the square left, the square reached, what kind of move it is
/// (see `Flag`) and the kind of the piece that moves (see `Piece`).
#[derive(Clone, Copy, PartialEq, Eq, Structural, Debug)]
pub struct Move {
    pub from: u8,
    pub to: u8,
    pub flag: u8,
    pub moved: u8,
}

impl Default for Move {
    fn default() -> (r: Self)
        ensures
            r == (Move { from: 0, to: 0, flag: 0, moved: 0 }),
    {
        Move { from: 0, to: 0, flag: 0, moved: 0 }
    }
}

impl Move {
    /// The move made of the four parts.
    #[must_use]
    pub fn new(from: u8, to: u8, flag: u8, moved: u8) -> (r: Self)
        ensures
            r == (Move { from, to, flag, moved }),
    {
        Self { from, to, flag, moved }
    }

    /// The move as text: `e2e4`, or `e7e8q` for a promotion.
    #[must_use]
    pub fn to_uci(self) -> (r: String)
        requires
            self.from < 64,
            self.to < 64,
        ensures
            r@ == uci_text(self),
    {
        let mut r = String::new();
        r.append(file_name(self.from));
        r.append(rank_name(self.from));
        r.append(file_name(self.to));
        r.append(rank_name(self.to));
        if self.flag & 8 != 0 {
            r.append(promo_name(self.flag));
        }
        assert(r@ =~= uci_text(self));
        r
    }
}

/// The letter of the file of a square.
pub open spec fn file_char(sq: u8) -> char {
    (97 + sq % 8) as char
}

/// The digit of the rank of a square.
pub open spec fn rank_char(sq: u8) -> char {
    (49 + sq / 8) as char
}

/// The letter of the piece that a promotion flag names.
pub open spec fn promo_char(flag: u8) -> char {
    if flag & 3 == 0 {
        'n'
    } else if flag & 3 == 1 {
        'b'
    } else if flag & 3 == 2 {
        'r'
    } else {
        'q'
    }
}

/// The text of a move: the two squares, and the letter of the new piece
/// where a pawn is promoted.
pub open spec fn uci_text(m: Move) -> Seq<char> {
    let squares = seq![file_char(m.from), rank_char(m.from), file_char(m.to), rank_char(m.to)];
    if m.flag & 8 != 0 {
        squares.push(promo_char(m.flag))
    } else {
        squares
    }
}

fn file_name(sq: u8) -> (s: &'static str)
    ensures
        s@ == seq![file_char(sq)],
{
    proof {
        reveal_strlit("a");
        reveal_strlit("b");
        reveal_strlit("c");
        reveal_strlit("d");
        reveal_strlit("e");
        reveal_strlit("f");
        reveal_strlit("g");
        reveal_strlit("h");
    }
    let f = sq % 8;
    let s = if f == 0 {
        "a"
    } else if f == 1 {
        "b"
    } else if f == 2 {
        "c"
    } else if f == 3 {
        "d"
    } else if f == 4 {
        "e"
    } else if f == 5 {
        "f"
    } else if f == 6 {
        "g"
    } else {
        "h"
    };
    assert(s@ =~= seq![file_char(sq)]);
    s
}

fn rank_name(sq: u8) -> (s: &'static str)
    requires
        sq < 64,
    ensures
        s@ == seq![rank_char(sq)],
{
    proof {
        reveal_strlit("1");
        reveal_strlit("2");
        reveal_strlit("3");
        reveal_strlit("4");
        reveal_strlit("5");
        reveal_strlit("6");
        reveal_strlit("7");
        reveal_strlit("8");
    }
    let r = sq / 8;
    let s = if r == 0 {
        "1"
    } else if r == 1 {
        "2"
    } else if r == 2 {
        "3"
    } else if r == 3 {
        "4"
    } else if r == 4 {
        "5"
    } else if r == 5 {
        "6"
    } else if r == 6 {
        "7"
    } else {
        "8"
    };
    assert(s@ =~= seq![rank_char(sq)]);
    s
}

fn promo_name(flag: u8) -> (s: &'static str)
    ensures
        s@ == seq![promo_char(flag)],
{
    proof {
        reveal_strlit("n");
        reveal_strlit("b");
        reveal_strlit("r");
        reveal_strlit("q");
    }
    let p = flag & 3;
    let s = if p == 0 {
        "n"
    } else if p == 1 {
        "b"
    } else if p == 2 {
        "r"
    } else {
        "q"
    };
    assert(s@ =~= seq![promo_char(flag)]);
    s
}

/// A piece as the rules see it: its side (0 white, 1 black) and its kind
/// (2 for the pawn to 7 for the king).
pub struct Man {
    pub side: int,
    pub kind: int,
}

/// A position. `bb[0]` and `bb[1]` hold the squares of the white and the
/// black pieces, `bb[2]` to `bb[7]` the squares of the pawns, knights,
/// bishops, rooks, queens and kings of both sides. `stm` is true when Black
/// is to move, `enp_sq` is the square on which a pawn can be taken in
/// passing (0 for none) and `rights` holds the castling rights.
#[derive(Clone, Copy, Debug)]
pub struct Position {
    pub bb: [u64; 8],
    pub stm: bool,
    pub enp_sq: u8,
    pub rights: u8,
}

impl Default for Position {
    fn default() -> (r: Self)
        ensures
            r == (Position { bb: [0, 0, 0, 0, 0, 0, 0, 0], stm: false, enp_sq: 0, rights: 0 }),
    {
        Position { bb: [0, 0, 0, 0, 0, 0, 0, 0], stm: false, enp_sq: 0, rights: 0 }
    }
}

/// The board of a position: what stands on each of the sixty-four
/// squares.
impl View for Position {
    type V = Seq<Option<Man>>;

    open spec fn view(&self) -> Seq<Option<Man>> {
        Seq::new(64, |i: int| self.man_at(i as u64))
    }
}

/// The index that stands for a side to move.
pub open spec fn side_index(black: bool) -> int {
    if black {
        1
    } else {
        0
    }
}

impl Position {
    /// The side to move: 0 for White, 1 for Black.
    pub open spec fn us(&self) -> int {
        side_index(self.stm)
    }

    /// All occupied squares.
    pub open spec fn occupied(&self) -> u64 {
        self.bb[0] | self.bb[1]
    }

    /// The squares of the pieces of `kind`, of both sides.
    pub open spec fn of(&self, kind: usize) -> u64 {
        self.bb[kind as int]
    }

    /// The square of the king of `side`, where it has one.
    pub open spec fn king_sq(&self, side: int) -> u64 {
        u64_trailing_zeros(self.bb[7] & self.bb[side]) as u64
    }

    /// The piece on `s` belongs to the enemy of `side` and attacks `target`
    /// when the occupied squares are `occ`.
    pub open spec fn attacks(&self, s: u64, target: u64, side: int, occ: u64) -> bool {
        &&& bit(self.bb[1 - side], s)
        &&& {
            ||| bit(self.of(Piece::KNIGHT), s) && knight_step(s, target)
            ||| bit(self.of(Piece::KING), s) && king_step(s, target)
            ||| bit(self.of(Piece::PAWN), s) && pawn_attack(1 - side, s, target)
            ||| bit(self.of(Piece::ROOK) | self.of(Piece::QUEEN), s) && rook_sees(occ, s, target)
            ||| bit(self.of(Piece::BISHOP) | self.of(Piece::QUEEN), s) && bishop_sees(
                occ,
                s,
                target,
            )
        }
    }

    /// Some piece of the enemy of `side` attacks `target` when the occupied
    /// squares are `occ`.
    pub open spec fn attacked(&self, target: u64, side: int, occ: u64) -> bool {
        exists|s: u64| self.attacks(s, target, side, occ)
    }

    /// The kind of the first piece mask, from pawn to king, that meets
    /// `mask`; `Piece::EMPTY` where none does.
    pub open spec fn kind_at(&self, mask: u64) -> usize {
        if self.bb[2] & mask != 0 {
            2
        } else if self.bb[3] & mask != 0 {
            3
        } else if self.bb[4] & mask != 0 {
            4
        } else if self.bb[5] & mask != 0 {
            5
        } else if self.bb[6] & mask != 0 {
            6
        } else if self.bb[7] & mask != 0 {
            7
        } else {
            0
        }
    }

        /// What stands on square `s`.
    pub open spec fn man_at(&self, s: u64) -> Option<Man> {
        if bit(self.occupied(), s) {
            Some(
                Man {
                    side: if bit(self.bb[1], s) {
                        1
                    } else {
                        0
                    },
                    kind: self.kind_at(only(s)) as int,
                },
            )
        } else {
            None
        }
    }

/// The position with `mask` flipped in the masks of `piece` and `side`,
    /// in that order.
    pub open spec fn toggled(self, side: int, piece: int, mask: u64) -> Position {
        let b1 = spec_array_update(self.bb, piece, self.bb[piece] ^ mask);
        let b2 = spec_array_update(b1, side, b1[side] ^ mask);
        Position { bb: b2, ..self }
    }

    /// The position that `make` leaves: the moved piece changes squares, a
    /// captured piece leaves the board, the rights that depend on either
    /// square lapse, the side to move changes, and the special moves do
    /// their extra work.
    pub open spec fn after(self, m: Move) -> Position {
        let side = self.us();
        let to = only(m.to as u64);
        let captured = if m.flag & Flag::CAP == 0 {
            Piece::EMPTY
        } else {
            self.kind_at(to)
        };
        let p0 = Position {
            bb: self.bb,
            stm: !self.stm,
            enp_sq: 0,
            rights: self.rights & (CASTLE_MASK[m.to as int] & CASTLE_MASK[m.from as int]),
        };
        let p1 = p0.toggled(side, m.moved as int, only(m.from as u64) ^ to);
        let p2 = if captured != Piece::EMPTY {
            p1.toggled(1 - side, captured as int, to)
        } else {
            p1
        };
        if m.flag == Flag::DBL {
            Position { enp_sq: m.to ^ 8, ..p2 }
        } else if m.flag == Flag::KS {
            p2.toggled(side, Piece::ROOK as int, ROOK_MOVES[1][side])
        } else if m.flag == Flag::QS {
            p2.toggled(side, Piece::ROOK as int, ROOK_MOVES[0][side])
        } else if m.flag == Flag::ENP {
            p2.toggled(1 - side, Piece::PAWN as int, only((m.to ^ 8) as u64))
        } else if m.flag >= Flag::NPR {
            let b1 = spec_array_update(p2.bb, Piece::PAWN as int, p2.bb[Piece::PAWN as int] ^ to);
            let promo = (m.flag & 3) + 3;
            Position { bb: spec_array_update(b1, promo, b1[promo] ^ to), ..p2 }
        } else {
            p2
        }
    }

    /// The mask at index `piece`: the squares of a side (0, 1) or of a kind of
    /// piece (2 to 7).
    #[must_use]
    pub fn piece(&self, piece: usize) -> (r: u64)
        requires
            piece < 8,
        ensures
            r == self.bb[piece as int],
    {
        self.bb[piece]
    }

    /// The side to move: 0 for White, 1 for Black.
    #[must_use]
    pub fn stm(&self) -> (r: usize)
        ensures
            r == self.us(),
    {
        if self.stm {
            1
        } else {
            0
        }
    }

    /// The castling rights, one bit each (see `Right`).
    #[must_use]
    pub fn rights(&self) -> (r: u8)
        ensures
            r == self.rights,
    {
        self.rights
    }

    /// The square on which a pawn can be taken in passing; 0 for none.
    #[must_use]
    pub fn enp_sq(&self) -> (r: u8)
        ensures
            r == self.enp_sq,
    {
        self.enp_sq
    }

    /// All occupied squares.
    #[must_use]
    pub fn occ(&self) -> (r: u64)
        ensures
            r == self.occupied(),
    {
        self.bb[0] | self.bb[1]
    }

    /// The square of the king of the side to move; 64 where it has none.
    #[must_use]
    pub fn king_index(&self) -> (r: usize)
        ensures
            r == self.king_sq(self.us()),
            r <= 64,
            r < 64 <==> self.bb[7] & self.bb[self.us()] != 0,
            r < 64 ==> bit(self.bb[7] & self.bb[self.us()], r as u64),
    {
        let kings = self.bb[7] & self.bb[self.stm()];
        proof {
            axiom_u64_trailing_zeros(kings);
        }
        kings.trailing_zeros() as usize
    }

    /// The pieces of the side to move.
    #[must_use]
    pub fn boys(&self) -> (r: u64)
        ensures
            r == self.bb[self.us()],
    {
        self.bb[self.stm()]
    }

    /// The pieces of the other side.
    #[must_use]
    pub fn opps(&self) -> (r: u64)
        ensures
            r == self.bb[1 - self.us()],
    {
        self.bb[1 - self.stm()]
    }

    /// The enemies of `side` that attack `sq` when the occupied squares are
    /// `occ`.
    #[must_use]
    pub fn attackers_to_square(&self, sq: usize, side: usize, occ: u64) -> (r: u64)
        requires
            sq < 64,
            side < 2,
        ensures
            forall|s: u64| bit(r, s) <==> self.attacks(s, sq as u64, side as int, occ),
    {
        let n = Attacks::knight(sq) & self.bb[Piece::KNIGHT];
        let k = Attacks::king(sq) & self.bb[Piece::KING];
        let p = Attacks::pawn(sq, side) & self.bb[Piece::PAWN];
        let r = Attacks::rook(sq, occ) & (self.bb[Piece::ROOK] | self.bb[Piece::QUEEN]);
        let b = Attacks::bishop(sq, occ) & (self.bb[Piece::BISHOP] | self.bb[Piece::QUEEN]);
        let all = (n | k | p | r | b) & self.bb[1 - side];
        proof {
            lemma_bit_ops();
            assert forall|s: u64| bit(all, s) <==> self.attacks(s, sq as u64, side as int, occ) by {
                crate::geometry::lemma_symmetry(sq as u64, s, occ);
            }
        }
        all
    }

    /// Whether an enemy of `side` attacks `sq` when the occupied squares are
    /// `occ`.
    #[must_use]
    pub fn is_square_attacked(&self, sq: usize, side: usize, occ: u64) -> (r: bool)
        requires
            sq < 64,
            side < 2,
        ensures
            r <==> self.attacked(sq as u64, side as int, occ),
    {
        let a = self.attackers_to_square(sq, side, occ);
        proof {
            lemma_bit_empty(a);
            if a != 0 {
                let s = lemma_bit_witness(a);
                assert(self.attacks(s, sq as u64, side as int, occ));
            } else {
                let target = sq as u64;
                let defender = side as int;
                assert forall|s: u64| !#[trigger] self.attacks(s, target, defender, occ) by {
                    assert(!bit(a, s));
                }
            }
        }
        a > 0
    }

    /// The kind of the piece that stands on a square of `bit`;
    /// `Piece::EMPTY` where none does.
    #[must_use]
    pub fn get_pc(&self, bit: u64) -> (r: usize)
        ensures
            r == self.kind_at(bit),
    {
        let mut pc: usize = Piece::PAWN;
        while pc <= Piece::KING
            invariant
                2 <= pc <= 8,
                forall|k: int| 2 <= k < pc ==> self.bb[k] & bit == 0,
            decreases 8 - pc,
        {
            if bit & self.bb[pc] > 0 {
                assert(self.bb[pc as int] & bit != 0) by {
                    lemma_and_commutes(bit, self.bb[pc as int]);
                }
                return pc;
            }
            assert(self.bb[pc as int] & bit == 0) by {
                lemma_and_commutes(bit, self.bb[pc as int]);
            }
            pc += 1;
        }
        Piece::EMPTY
    }

    /// Flips the squares of `bit` in the masks of `piece` and of `side`:
    /// puts a piece there, or takes it away.
    pub fn toggle(&mut self, side: usize, piece: usize, bit: u64)
        requires
            side < 8,
            piece < 8,
        ensures
            *final(self) == old(self).toggled(side as int, piece as int, bit),
    {
        self.bb[piece] ^= bit;
        self.bb[side] ^= bit;
        proof {
            assert(self.bb =~= old(self).toggled(side as int, piece as int, bit).bb);
        }
    }

    /// Plays `mov`. Whether the move is legal is not looked into: a move
    /// that the generator did not produce may leave a position that is none.
    pub fn make(&mut self, mov: Move)
        requires
            mov.from < 64,
            mov.to < 64,
            mov.moved < 8,
        ensures
            *final(self) == old(self).after(mov),
                        old(self).wf() && old(self).pseudo(mov) ==> final(self)@ == board_after(
                old(self)@,
                old(self).us(),
                mov,
            ),
    {
        let side = self.stm();
        let bb_from = 1u64 << (mov.from as u64);
        let bb_to = 1u64 << (mov.to as u64);
        let captured = if mov.flag & Flag::CAP == 0 {
            Piece::EMPTY
        } else {
            self.get_pc(bb_to)
        };
        proof {
            lemma_byte_ops();
        }

        self.stm = !self.stm;
        self.enp_sq = 0;
        self.rights &= CASTLE_MASK[mov.to as usize] & CASTLE_MASK[mov.from as usize];

        self.toggle(side, mov.moved as usize, bb_from ^ bb_to);

        if captured != Piece::EMPTY {
            self.toggle(1 - side, captured, bb_to);
        }
        if mov.flag == Flag::DBL {
            self.enp_sq = mov.to ^ 8;
        } else if mov.flag == Flag::KS {
            self.toggle(side, Piece::ROOK, ROOK_MOVES[1][side]);
        } else if mov.flag == Flag::QS {
            self.toggle(side, Piece::ROOK, ROOK_MOVES[0][side]);
        } else if mov.flag == Flag::ENP {
            self.toggle(1 - side, Piece::PAWN, 1u64 << ((mov.to ^ 8) as u64));
        } else if mov.flag >= Flag::NPR {
            let promo = ((mov.flag & 3) + 3) as usize;
            self.bb[Piece::PAWN] ^= bb_to;
            self.bb[promo] ^= bb_to;
        }
        proof {
            assert(self.bb =~= old(self).after(mov).bb);
                        if old(self).wf() && old(self).pseudo(mov) {
                lemma_make_on_board(*old(self), mov);
            }
        }
    }
}

proof fn lemma_and_commutes(a: u64, b: u64)
    by (bit_vector)
    ensures
        a & b == b & a,
{
}

} // verus!
