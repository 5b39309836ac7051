//! The rules: which positions are sound and which moves are legal.

use vstd::prelude::*;
use crate::bits::bit;
use crate::bits::lemma_bit_ops;
use crate::bits::lemma_bit_witness;
use crate::bits::lemma_byte_ops;
use crate::bits::lemma_single;
use crate::bits::only;
use crate::bits::single;
use crate::consts::Flag;
use crate::consts::Path;
use crate::consts::Piece;
use crate::consts::Rank;
use crate::consts::Right;
use crate::geometry::between;
use crate::geometry::between_mask;
use crate::geometry::bishop_sees;
use crate::geometry::collinear;
use crate::geometry::diagonal;
use crate::geometry::king_step;
use crate::geometry::knight_step;
use crate::geometry::pawn_attack;
use crate::geometry::queen_sees;
use crate::geometry::rook_sees;
use crate::geometry::straight;
use crate::position::Move;
use crate::position::Position;

verus! {

impl Position {
    /// The masks describe one board: no square belongs to both sides or to
    /// two kinds of piece, the squares of the six kinds together are the
    /// squares of the two sides, and each side has exactly one king.
    pub open spec fn board_wf(&self) -> bool {
        &&& self.bb[0] & self.bb[1] == 0
        &&& forall|i: int, j: int|
            2 <= i < j < 8 ==> #[trigger] self.bb[i] & #[trigger] self.bb[j] == 0
        &&& self.bb[2] | self.bb[3] | self.bb[4] | self.bb[5] | self.bb[6] | self.bb[7]
            == self.bb[0] | self.bb[1]
        &&& single(self.bb[7] & self.bb[0])
        &&& single(self.bb[7] & self.bb[1])
    }

    /// `side` has its king on `king` and a rook on `rook`.
    pub open spec fn can_still_castle(&self, side: int, king: u64, rook: u64) -> bool {
        &&& bit(self.bb[side], king)
        &&& bit(self.of(Piece::KING), king)
        &&& bit(self.bb[side], rook)
        &&& bit(self.of(Piece::ROOK), rook)
    }

    /// A castling right is held only while king and rook stand on their
    /// first squares.
    pub open spec fn rights_wf(&self) -> bool {
        &&& self.rights < 16
        &&& self.rights & Right::WKS != 0 ==> self.can_still_castle(0, 4, 7)
        &&& self.rights & Right::WQS != 0 ==> self.can_still_castle(0, 4, 0)
        &&& self.rights & Right::BKS != 0 ==> self.can_still_castle(1, 60, 63)
        &&& self.rights & Right::BQS != 0 ==> self.can_still_castle(1, 60, 56)
    }

    /// An en-passant square is named only right after a double push: it lies
    /// on the sixth rank as the side to move sees it, it is empty, and the
    /// enemy pawn that passed over it stands behind it.
    pub open spec fn enp_wf(&self) -> bool {
        self.enp_sq != 0 ==> {
            &&& if self.stm {
                16 <= self.enp_sq < 24
            } else {
                40 <= self.enp_sq < 48
            }
            &&& !bit(self.occupied(), self.enp_sq as u64)
            &&& bit(self.bb[1 - self.us()], (self.enp_sq ^ 8) as u64)
            &&& bit(self.of(Piece::PAWN), (self.enp_sq ^ 8) as u64)
        }
    }

    /// The position is sound.
    pub open spec fn wf(&self) -> bool {
        self.board_wf() && self.rights_wf() && self.enp_wf()
    }

    /// The target square fits the flag of a plain move: empty for a quiet
    /// move, held by the enemy for a capture.
    pub open spec fn lands(&self, m: Move) -> bool {
        ||| m.flag == Flag::QUIET && !bit(self.occupied(), m.to as u64)
        ||| m.flag == Flag::CAP && bit(self.bb[1 - self.us()], m.to as u64)
    }

    /// The move of a pawn from `m.from` follows the rules for pawns: one
    /// step ahead to an empty square, two steps from the pawn's first rank
    /// over empty squares, one step diagonally ahead onto an enemy piece or
    /// onto the en-passant square. From the rank before the last, step and
    /// capture carry a promotion flag.
    pub open spec fn pawn_pseudo(&self, m: Move) -> bool {
        let us = self.us();
        let from = m.from as u64;
        let to = m.to as u64;
        let last = bit(Rank::PEN[us], from);
        ||| to == ahead(us, from as int, 8) && !bit(self.occupied(), to) && if last {
            Flag::NPR <= m.flag <= Flag::QPR
        } else {
            m.flag == Flag::QUIET
        }
        ||| m.flag == Flag::DBL && to == ahead(us, from as int, 16) && bit(Rank::DBL[us], to)
            && !bit(self.occupied(), to) && !bit(
            self.occupied(),
            ahead(us, from as int, 8) as u64,
        )
        ||| pawn_attack(us, from, to) && bit(self.bb[1 - us], to) && if last {
            Flag::NPC <= m.flag <= Flag::QPC
        } else {
            m.flag == Flag::CAP
        }
        ||| m.flag == Flag::ENP && self.enp_sq != 0 && m.to == self.enp_sq && pawn_attack(
            us,
            from,
            to,
        )
    }

    /// The king castles: it holds the right, the squares between king and
    /// rook are empty, and the king is not attacked where it stands, where
    /// it passes and where it lands.
    pub open spec fn castle_pseudo(&self, m: Move) -> bool {
        let us = self.us();
        let occ = self.occupied();
        let home: u64 = if us == 0 {
            4
        } else {
            60
        };
        &&& m.from == home
        &&& !self.attacked(home, us, occ)
        &&& {
            ||| {
                &&& m.flag == Flag::KS
                &&& m.to == home + 2
                &&& self.rights & Right::TABLE[us][1] != 0
                &&& occ & Path::TABLE[us][1] == 0
                &&& !self.attacked((home + 1) as u64, us, occ)
                &&& !self.attacked((home + 2) as u64, us, occ)
            }
            ||| {
                &&& m.flag == Flag::QS
                &&& m.to == home - 2
                &&& self.rights & Right::TABLE[us][0] != 0
                &&& occ & Path::TABLE[us][0] == 0
                &&& !self.attacked((home - 1) as u64, us, occ)
                &&& !self.attacked((home - 2) as u64, us, occ)
            }
        }
    }

    /// The move follows the rules for the piece that moves, whether or not
    /// it leaves the mover's king attacked.
    pub open spec fn pseudo(&self, m: Move) -> bool {
        let us = self.us();
        let occ = self.occupied();
        let from = m.from as u64;
        let to = m.to as u64;
        &&& from < 64
        &&& to < 64
        &&& bit(self.bb[us], from)
        &&& 2 <= m.moved <= 7
        &&& bit(self.bb[m.moved as int], from)
        &&& if m.moved == Piece::PAWN {
            self.pawn_pseudo(m)
        } else if m.moved == Piece::KNIGHT {
            knight_step(from, to) && self.lands(m)
        } else if m.moved == Piece::BISHOP {
            bishop_sees(occ, from, to) && self.lands(m)
        } else if m.moved == Piece::ROOK {
            rook_sees(occ, from, to) && self.lands(m)
        } else if m.moved == Piece::QUEEN {
            queen_sees(occ, from, to) && self.lands(m)
        } else {
            king_step(from, to) && self.lands(m) || self.castle_pseudo(m)
        }
    }

    /// The enemy piece on `s` and the piece of the side to move on `x` stand
    /// on a line with the king of the side to move, in that order, with
    /// nothing else between king and enemy, and the enemy piece moves along
    /// that line: the piece on `x` shields the king.
    pub open spec fn pins(&self, s: u64, x: u64) -> bool {
        let us = self.us();
        let k = self.king_sq(us);
        &&& s < 64
        &&& s != k
        &&& bit(self.bb[1 - us], s)
        &&& {
            ||| bit(self.of(Piece::ROOK) | self.of(Piece::QUEEN), s) && straight(k, s)
            ||| bit(self.of(Piece::BISHOP) | self.of(Piece::QUEEN), s) && diagonal(k, s)
        }
        &&& bit(self.bb[us], x)
        &&& self.occupied() & between_mask(k, s) == only(x)
    }

    /// The piece on `x` shields its king from some enemy piece.
    pub open spec fn is_pinned(&self, x: u64) -> bool {
        exists|s: u64| self.pins(s, x)
    }

    /// The enemy piece on `c` gives check.
    pub open spec fn checks(&self, c: u64) -> bool {
        self.attacks(c, self.king_sq(self.us()), self.us(), self.occupied())
    }

    /// At most one piece gives check.
    pub open spec fn few_checks(&self) -> bool {
        forall|c: u64, d: u64| #[trigger] self.checks(c) && #[trigger] self.checks(d) ==> c == d
    }

    /// A piece that goes to `t` ends every check: it takes the piece that
    /// gives check or stands between that piece and the king.
    pub open spec fn parries(&self, t: u64) -> bool {
        forall|c: u64| #[trigger]
            self.checks(c) ==> t == c || between(self.king_sq(self.us()), c, t)
    }

    /// The move of a piece other than the king keeps the king covered: it
    /// ends every check, and a piece that shields the king stays on the
    /// line between the king and the piece it shields it from.
    pub open spec fn shielded(&self, m: Move) -> bool {
        &&& self.parries(m.to as u64)
        &&& self.is_pinned(m.from as u64) ==> collinear(
            self.king_sq(self.us()),
            m.from as u64,
            m.to as u64,
        )
    }

    /// The square the king steps to is not attacked once the king has left
    /// its own square.
    pub open spec fn king_safe(&self, m: Move) -> bool {
        !self.attacked(
            m.to as u64,
            self.us(),
            self.occupied() ^ only(self.king_sq(self.us())),
        )
    }

    /// What the generator goes by: the move follows the rules for the piece;
    /// a king's step leads to a square that is not attacked; castling is
    /// taken as it stands; a capture in passing is tried out on the board,
    /// unless two pieces give check; any other move keeps the king covered.
    pub open spec fn generated(&self, m: Move) -> bool {
        &&& self.pseudo(m)
        &&& if m.moved == Piece::KING {
            m.flag == Flag::KS || m.flag == Flag::QS || self.king_safe(m)
        } else if m.flag == Flag::ENP {
            self.few_checks() && !self.after(m).in_check(self.us())
        } else {
            self.few_checks() && self.shielded(m)
        }
    }

    /// The move is legal: it follows the rules for the piece that moves and
    /// does not leave the mover's king attacked.
    pub open spec fn legal(&self, m: Move) -> bool {
        self.pseudo(m) && !self.after(m).in_check(self.us())
    }

    /// The king of `side` is attacked.
    pub open spec fn in_check(&self, side: int) -> bool {
        self.attacked(self.king_sq(side), side, self.occupied())
    }

    fn board_valid(&self) -> (r: bool)
        ensures
            r == self.board_wf(),
    {
        if self.bb[0] & self.bb[1] != 0 {
            return false;
        }
        if self.bb[2] | self.bb[3] | self.bb[4] | self.bb[5] | self.bb[6] | self.bb[7]
            != self.bb[0] | self.bb[1] {
            return false;
        }
        let white = self.bb[7] & self.bb[0];
        let black = self.bb[7] & self.bb[1];
        if white == 0 || white & (white - 1) != 0 || black == 0 || black & (black - 1) != 0 {
            return false;
        }
        let mut i: usize = 2;
        while i < 8
            invariant
                2 <= i <= 8,
                forall|a: int, b: int|
                    2 <= a < b < 8 && a < i ==> #[trigger] self.bb[a] & #[trigger] self.bb[b] == 0,
            decreases 8 - i,
        {
            let mut j: usize = i + 1;
            while j < 8
                invariant
                    2 <= i < j <= 8,
                    forall|a: int, b: int|
                        2 <= a < b < 8 && a < i ==> #[trigger] self.bb[a] & #[trigger] self.bb[b]
                            == 0,
                    forall|b: int| i < b < j ==> self.bb[i as int] & #[trigger] self.bb[b] == 0,
                decreases 8 - j,
            {
                if self.bb[i] & self.bb[j] != 0 {
                    return false;
                }
                j += 1;
            }
            i += 1;
        }
        true
    }

    fn stands(&self, side: usize, kind: usize, sq: u64) -> (r: bool)
        requires
            side < 2,
            kind < 8,
            sq < 64,
        ensures
            r == (bit(self.bb[side as int], sq) && bit(self.bb[kind as int], sq)),
    {
        (self.bb[side] >> sq) & 1 == 1 && (self.bb[kind] >> sq) & 1 == 1
    }

    fn rights_valid(&self) -> (r: bool)
        ensures
            r == self.rights_wf(),
    {
        self.rights < 16 && (self.rights & Right::WKS == 0 || (self.stands(0, 7, 4) && self.stands(
            0,
            5,
            7,
        ))) && (self.rights & Right::WQS == 0 || (self.stands(0, 7, 4) && self.stands(0, 5, 0)))
            && (self.rights & Right::BKS == 0 || (self.stands(1, 7, 60) && self.stands(1, 5, 63)))
            && (self.rights & Right::BQS == 0 || (self.stands(1, 7, 60) && self.stands(1, 5, 56)))
    }

    fn enp_valid(&self) -> (r: bool)
        ensures
            r == self.enp_wf(),
    {
        if self.enp_sq == 0 {
            return true;
        }
        let e = self.enp_sq;
        let in_rank = if self.stm {
            16 <= e && e < 24
        } else {
            40 <= e && e < 48
        };
        if !in_rank {
            return false;
        }
        proof {
            lemma_byte_ops();
        }
        let occ = self.bb[0] | self.bb[1];
        let behind = (e ^ 8) as u64;
        (occ >> (e as u64)) & 1 != 1 && self.stands(1 - self.stm(), 2, behind)
    }

    /// Whether the position is sound.
    #[must_use]
    pub fn is_valid(&self) -> (r: bool)
        ensures
            r == self.wf(),
    {
        self.board_valid() && self.rights_valid() && self.enp_valid()
    }

    /// Whether the king of the side to move is attacked.
    #[must_use]
    pub fn is_in_check(&self) -> (r: bool)
        requires
            self.wf(),
        ensures
            r == self.in_check(self.us()),
    {
        proof {
            lemma_has_king(*self, self.us());
        }
        self.is_square_attacked(self.king_index(), self.stm(), self.occ())
    }
}

/// The flag of a pawn's step: quiet, double, or a promotion without capture.
pub open spec fn push_flag(f: u8) -> bool {
    f == Flag::QUIET || f == Flag::DBL || Flag::NPR <= f <= Flag::QPR
}

/// The flag of a pawn's capture: capture, or a promotion with capture.
pub open spec fn capture_flag(f: u8) -> bool {
    f == Flag::CAP || Flag::NPC <= f <= Flag::QPC
}

/// The number of the square `amount` squares ahead of `idx`, as `side` sees
/// it.
pub open spec fn ahead(side: int, idx: int, amount: int) -> int {
    if side == 0 {
        idx + amount
    } else {
        idx - amount
    }
}

/// On a sound board every occupied square holds one side and one kind, and
/// an empty square holds neither.
pub proof fn lemma_board_pointwise(p: Position)
    requires
        p.board_wf(),
    ensures
        forall|s: u64| !(#[trigger] bit(p.bb[0], s) && bit(p.bb[1], s)),
        forall|s: u64, i: int, j: int|
            2 <= i < j < 8 ==> !(#[trigger] bit(p.bb[i], s) && #[trigger] bit(p.bb[j], s)),
        forall|s: u64|
            #[trigger] bit(p.occupied(), s) <==> bit(p.bb[2], s) || bit(p.bb[3], s) || bit(
                p.bb[4],
                s,
            ) || bit(p.bb[5], s) || bit(p.bb[6], s) || bit(p.bb[7], s),
        forall|s: u64| #[trigger] bit(p.occupied(), s) <==> bit(p.bb[0], s) || bit(p.bb[1], s),
{
    lemma_bit_ops();
    assert forall|s: u64| !(#[trigger] bit(p.bb[0], s) && bit(p.bb[1], s)) by {
        assert(bit(p.bb[0] & p.bb[1], s) <==> bit(p.bb[0], s) && bit(p.bb[1], s));
    }
    assert forall|s: u64, i: int, j: int| 2 <= i < j < 8 implies !(#[trigger] bit(p.bb[i], s)
        && #[trigger] bit(p.bb[j], s)) by {
        assert(p.bb[i] & p.bb[j] == 0);
        assert(bit(p.bb[i] & p.bb[j], s) <==> bit(p.bb[i], s) && bit(p.bb[j], s));
    }
}

/// The kind that `kind_at` finds on a square of a sound board is the kind
/// of the piece that stands there.
pub proof fn lemma_kind_at(p: Position, s: u64)
    requires
        p.board_wf(),
        s < 64,
    ensures
        p.kind_at(only(s)) == 0 <==> !bit(p.occupied(), s),
        p.kind_at(only(s)) != 0 ==> 2 <= p.kind_at(only(s)) < 8 && bit(
            p.bb[p.kind_at(only(s)) as int],
            s,
        ),
{
    lemma_bit_ops();
    lemma_board_pointwise(p);
}

/// The king moves by step or by castling.
pub proof fn lemma_king_flags(p: Position, m: Move)
    requires
        p.pseudo(m),
    ensures
        m.moved == Piece::KING ==> m.flag == Flag::QUIET || m.flag == Flag::CAP || m.flag
            == Flag::KS || m.flag == Flag::QS,
        m.moved != Piece::KING ==> m.flag != Flag::KS && m.flag != Flag::QS,
        m.flag < 16,
{
}

/// A sound position has the king of `side` on the board, on the square
/// that `king_sq` names.
pub proof fn lemma_has_king(p: Position, side: int)
    requires
        p.board_wf(),
        side == 0 || side == 1,
    ensures
        p.king_sq(side) < 64,
        p.bb[7] & p.bb[side] == only(p.king_sq(side)),
        bit(p.bb[7], p.king_sq(side)),
        bit(p.bb[side], p.king_sq(side)),
{
    let kings = p.bb[7] & p.bb[side];
    let k = lemma_bit_witness(kings);
    lemma_single(kings, k);
    lemma_bit_ops();
}

} // verus!
