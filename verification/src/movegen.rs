//! The move generator: every legal move of a position, and no other.

use vstd::prelude::*;
use vstd::std_specs::bits::axiom_u64_trailing_zeros;
use vstd::std_specs::bits::u64_trailing_zeros;
use crate::attacks::Attacks;
use crate::attacks::one_blocker;
use crate::attacks::pawn_mask;
use crate::bits::bit;
use crate::bits::lemma_bit_ops;
use crate::bits::lemma_bit_witness;
use crate::bits::lemma_single;
use crate::bits::only;
use crate::bits::pop_lsb;
use crate::bits::single;
use crate::consts::Flag;
use crate::consts::Path;
use crate::consts::Piece;
use crate::consts::Rank;
use crate::consts::Right;
use crate::effects::lemma_ep_king;
use crate::geometry::between;
use crate::geometry::between_mask;
use crate::geometry::bishop_sees;
use crate::geometry::collinear;
use crate::geometry::in_between;
use crate::geometry::king_step;
use crate::geometry::lemma_line_masks;
use crate::geometry::lemma_steps_gap;
use crate::geometry::lemma_symmetry;
use crate::geometry::line_mask;
use crate::geometry::line_through;
use crate::geometry::rook_sees;
use crate::legality::lemma_generated_is_legal;
use crate::position::Move;
use crate::position::Position;
use crate::rules::ahead;
use crate::rules::capture_flag;
use crate::rules::lemma_board_pointwise;
use crate::rules::lemma_has_king;
use crate::rules::push_flag;

verus! {

/// A list of moves.
pub struct MoveList {
    pub list: Vec<Move>,
}

impl View for MoveList {
    type V = Seq<Move>;

    open spec fn view(&self) -> Seq<Move> {
        self.list@
    }
}

impl Default for MoveList {
    fn default() -> (r: Self)
        ensures
            r@.len() == 0,
    {
        MoveList { list: Vec::new() }
    }
}

impl MoveList {
    /// The list holds `m`.
    pub open spec fn holds(&self, m: Move) -> bool {
        self@.contains(m)
    }

    /// No move stands in the list twice.
    pub open spec fn distinct(&self) -> bool {
        self@.no_duplicates()
    }

    /// The number of moves in the list.
    pub fn len(&self) -> (n: usize)
        ensures
            n == self@.len(),
    {
        self.list.len()
    }

    /// Appends the move made of the four parts.
    pub fn push(&mut self, from: u8, to: u8, flag: u8, mpc: u8)
        ensures
            final(self)@ == old(self)@.push(Move { from, to, flag, moved: mpc }),
            forall|m: Move| #[trigger]
                final(self).holds(m) <==> old(self).holds(m) || m == (Move {
                    from,
                    to,
                    flag,
                    moved: mpc,
                }),
            old(self).distinct() && !old(self).holds(Move { from, to, flag, moved: mpc })
                ==> final(self).distinct(),
    {
        let mv = Move::new(from, to, flag, mpc);
        self.list.push(mv);
        proof {
            let before = old(self)@;
            assert forall|m: Move| #[trigger] self.holds(m) <==> old(self).holds(m) || m == mv by {
                if old(self).holds(m) {
                    let i = choose|i: int| 0 <= i < before.len() && before[i] == m;
                    assert(self@[i] == m);
                }
                if m == mv {
                    assert(self@[before.len() as int] == m);
                }
            }
            if old(self).distinct() && !old(self).holds(mv) {
                assert forall|i: int, j: int|
                    0 <= i < self@.len() && 0 <= j < self@.len() && i != j implies self@[i]
                    != self@[j] by {
                    if i < before.len() {
                        assert(before.contains(before[i]));
                    }
                    if j < before.len() {
                        assert(before.contains(before[j]));
                    }
                }
            }
        }
    }
}

/// Appends one move from `from` to each square of `attacks`.
pub(crate) fn encode(moves: &mut MoveList, attacks: u64, from: u8, flag: u8, pc: u8)
    requires
        old(moves).distinct(),
        forall|m: Move| #[trigger]
            old(moves).holds(m) ==> !(m.from == from && m.flag == flag && m.moved == pc),
    ensures
        final(moves).distinct(),
        forall|m: Move| #[trigger]
            final(moves).holds(m) <==> old(moves).holds(m) || (m.from == from && m.flag == flag
                && m.moved == pc && bit(attacks, m.to as u64)),
{
        let mut rest = attacks;
    while rest > 0
        invariant
            moves.distinct(),
            forall|m: Move| #[trigger]
                old(moves).holds(m) ==> !(m.from == from && m.flag == flag && m.moved == pc),
            forall|m: Move| #[trigger]
                moves.holds(m) <==> old(moves).holds(m) || (m.from == from && m.flag == flag
                    && m.moved == pc && bit(attacks, m.to as u64) && !bit(rest, m.to as u64)),
            forall|j: u64| bit(rest, j) ==> bit(attacks, j),
        decreases rest,
    {
        let to = pop_lsb(&mut rest);
        moves.push(from, to, flag, pc);
    }
    proof {
        lemma_bit_ops();
    }
}

/// Moves every square of `bb` one rank towards the side's own back rank.
pub(crate) fn shift(side: usize, bb: u64) -> (r: u64)
    ensures
        r == shift_spec(side as int, bb),
{
    if side == 0 {
        bb >> 8
    } else {
        bb << 8
    }
}

/// The mask with every square moved one rank towards the side's own back
/// rank.
pub open spec fn shift_spec(side: int, bb: u64) -> u64 {
    if side == 0 {
        bb >> 8
    } else {
        bb << 8
    }
}

/// The square `amount` squares ahead of `idx`, as `side` sees it.
pub(crate) fn idx_shift(side: usize, amount: u8, idx: u8) -> (r: u8)
    requires
        side == 0 ==> idx + amount < 256,
        side != 0 ==> idx >= amount,
    ensures
        r == ahead(side as int, idx as int, amount as int),
{
    if side == 0 {
        idx + amount
    } else {
        idx - amount
    }
}

impl Position {
    /// Appends the legal steps of the king.
    fn king_moves(&self, moves: &mut MoveList)
        requires
            self.wf(),
            old(moves).distinct(),
            forall|m: Move| #[trigger] old(moves).holds(m) ==> m.moved != Piece::KING,
        ensures
            final(moves).distinct(),
            forall|m: Move| #[trigger]
                final(moves).holds(m) <==> old(moves).holds(m) || (m.moved == Piece::KING && (m.flag
                    == Flag::QUIET || m.flag == Flag::CAP) && self.pseudo(m) && self.king_safe(m)),
    {
        proof {
            lemma_has_king(*self, self.us());
            lemma_board_pointwise(*self);
            lemma_bit_ops();
        }
        let king_sq = self.king_index();
        let attacks = Attacks::king(king_sq);
        let side = self.stm();
        let occ = self.occ();
        let no_king = occ ^ (1u64 << (king_sq as u64));
        let ghost k = king_sq as u64;

        let caps0 = attacks & self.opps();
        let mut caps = caps0;
        while caps > 0
            invariant
                self.wf(),
                side == self.us(),
                king_sq < 64,
                k == king_sq,
                no_king == self.occupied() ^ only(self.king_sq(self.us())),
                k == self.king_sq(self.us()),
                forall|j: u64| bit(caps, j) ==> bit(caps0, j),
                moves.distinct(),
                forall|m: Move| #[trigger] old(moves).holds(m) ==> m.moved != Piece::KING,
                forall|m: Move| #[trigger]
                    moves.holds(m) <==> old(moves).holds(m) || (m.from == king_sq && m.moved
                        == Piece::KING && m.flag == Flag::CAP && bit(caps0, m.to as u64) && !bit(
                        caps,
                        m.to as u64,
                    ) && self.king_safe(m)),
            decreases caps,
        {
            let to = pop_lsb(&mut caps);
            if !self.is_square_attacked(to as usize, side, no_king) {
                moves.push(king_sq as u8, to, Flag::CAP, Piece::KING as u8);
            }
        }
        let ghost mid = *moves;

        let quiets0 = attacks & !occ;
        let mut quiets = quiets0;
        while quiets > 0
            invariant
                self.wf(),
                side == self.us(),
                king_sq < 64,
                k == king_sq,
                no_king == self.occupied() ^ only(self.king_sq(self.us())),
                k == self.king_sq(self.us()),
                forall|j: u64| bit(quiets, j) ==> bit(quiets0, j),
                moves.distinct(),
                forall|m: Move| #[trigger]
                    mid.holds(m) ==> !(m.moved == Piece::KING && m.flag == Flag::QUIET),
                forall|m: Move| #[trigger]
                    moves.holds(m) <==> mid.holds(m) || (m.from == king_sq && m.moved
                        == Piece::KING && m.flag == Flag::QUIET && bit(quiets0, m.to as u64)
                        && !bit(quiets, m.to as u64) && self.king_safe(m)),
            decreases quiets,
        {
            let to = pop_lsb(&mut quiets);
            if !self.is_square_attacked(to as usize, side, no_king) {
                moves.push(king_sq as u8, to, Flag::QUIET, Piece::KING as u8);
            }
        }
        proof {
            assert forall|m: Move| #[trigger]
                moves.holds(m) <==> old(moves).holds(m) || (m.moved == Piece::KING && (m.flag
                    == Flag::QUIET || m.flag == Flag::CAP) && self.pseudo(m) && self.king_safe(
                    m,
                )) by {
                let from = m.from as u64;
                let to = m.to as u64;
                if m.moved == Piece::KING && (m.flag == Flag::QUIET || m.flag == Flag::CAP) {
                    if from < 64 && bit(self.bb[self.us()], from) && bit(self.bb[7], from) {
                        assert(bit(self.bb[7] & self.bb[self.us()], from));
                        assert(from == k);
                    }
                    assert(bit(self.bb[7], k) && bit(self.bb[self.us()], k));
                    assert(bit(caps0, to) <==> to < 64 && king_step(k, to) && bit(
                        self.bb[1 - self.us()],
                        to,
                    ));
                    assert(bit(quiets0, to) <==> to < 64 && king_step(k, to) && !bit(
                        self.occupied(),
                        to,
                    ));
                    assert(!self.castle_pseudo(m));
                }
            }
        }
    }

    /// Whether the side may castle to the given wing: it holds the right,
    /// the path is empty and neither of the two squares is attacked.
    fn can_castle(&self, side: usize, ks: usize, occ: u64, sq1: usize, sq2: usize) -> (r: bool)
        requires
            side < 2,
            ks < 2,
            sq1 < 64,
            sq2 < 64,
        ensures
            r <==> self.rights & Right::TABLE[side as int][ks as int] != 0 && occ
                & Path::TABLE[side as int][ks as int] == 0 && !self.attacked(
                sq1 as u64,
                side as int,
                occ,
            ) && !self.attacked(sq2 as u64, side as int, occ),
    {
        self.rights() & Right::TABLE[side][ks] > 0 && occ & Path::TABLE[side][ks] == 0
            && !self.is_square_attacked(sq1, side, occ) && !self.is_square_attacked(sq2, side, occ)
    }

    /// Appends the castling moves of a king that is not in check.
    pub(crate) fn castles(&self, moves: &mut MoveList, occ: u64)
        requires
            self.wf(),
            occ == self.occupied(),
            !self.in_check(self.us()),
            old(moves).distinct(),
            forall|m: Move| #[trigger]
                old(moves).holds(m) ==> m.flag != Flag::KS && m.flag != Flag::QS,
        ensures
            final(moves).distinct(),
            forall|m: Move| #[trigger]
                final(moves).holds(m) <==> old(moves).holds(m) || ((m.flag == Flag::KS || m.flag
                    == Flag::QS) && self.pseudo(m)),
    {
        proof {
            lemma_has_king(*self, self.us());
            lemma_board_pointwise(*self);
            lemma_bit_ops();
        }
        let ghost k = self.king_sq(self.us());
        if self.stm() == 1 {
            if self.can_castle(1, 0, occ, 59, 58) {
                moves.push(60, 58, Flag::QS, Piece::KING as u8);
            }
            if self.can_castle(1, 1, occ, 61, 62) {
                moves.push(60, 62, Flag::KS, Piece::KING as u8);
            }
        } else {
            if self.can_castle(0, 0, occ, 3, 2) {
                moves.push(4, 2, Flag::QS, Piece::KING as u8);
            }
            if self.can_castle(0, 1, occ, 5, 6) {
                moves.push(4, 6, Flag::KS, Piece::KING as u8);
            }
        }
        proof {
            assert forall|m: Move| #[trigger]
                moves.holds(m) <==> old(moves).holds(m) || ((m.flag == Flag::KS || m.flag
                    == Flag::QS) && self.pseudo(m)) by {
                let from = m.from as u64;
                let home: u64 = if self.stm {
                    60
                } else {
                    4
                };
                if m.flag == Flag::KS || m.flag == Flag::QS {
                    if self.pseudo(m) {
                        assert(m.moved == Piece::KING);
                        assert(self.castle_pseudo(m));
                        assert(bit(self.bb[7] & self.bb[self.us()], from));
                        assert(from == k);
                    }
                    if self.rights & Right::TABLE[self.us()][0] != 0 || self.rights
                        & Right::TABLE[self.us()][1] != 0 {
                        assert(bit(self.bb[7] & self.bb[self.us()], home));
                        assert(home == k);
                    }
                }
            }
        }
    }

    /// Appends the covered moves of the pieces of kind `pc` on `attackers`,
    /// all of which shield the king (`pinned`) or none.
    fn piece_moves_internal(
        &self,
        moves: &mut MoveList,
        pc: u8,
        pinned: bool,
        check_mask: u64,
        attackers: u64,
    )
        requires
            self.wf(),
            Piece::KNIGHT <= pc <= Piece::QUEEN,
            forall|t: u64| t < 64 ==> (bit(check_mask, t) <==> self.parries(t)),
            forall|j: u64|
                bit(attackers, j) ==> bit(self.bb[self.us()], j) && bit(self.bb[pc as int], j) && (
                self.is_pinned(j) <==> pinned),
            old(moves).distinct(),
            forall|m: Move| #[trigger]
                old(moves).holds(m) ==> !(m.moved == pc && bit(attackers, m.from as u64)),
        ensures
            final(moves).distinct(),
            forall|m: Move| #[trigger]
                final(moves).holds(m) <==> old(moves).holds(m) || (m.moved == pc && bit(
                    attackers,
                    m.from as u64,
                ) && self.pseudo(m) && self.shielded(m)),
    {
        proof {
            lemma_has_king(*self, self.us());
            lemma_board_pointwise(*self);
            lemma_bit_ops();
        }
        let occ = self.occ();
        let king_sq = self.king_index();
        let opps = self.opps();
        let ghost k = king_sq as u64;
        let mut rest = attackers;
        while rest > 0
            invariant
                self.wf(),
                Piece::KNIGHT <= pc <= Piece::QUEEN,
                occ == self.occupied(),
                opps == self.bb[1 - self.us()],
                king_sq < 64,
                k == king_sq,
                k == self.king_sq(self.us()),
                bit(self.bb[7], k),
                forall|t: u64| t < 64 ==> (bit(check_mask, t) <==> self.parries(t)),
                forall|j: u64|
                    bit(attackers, j) ==> bit(self.bb[self.us()], j) && bit(self.bb[pc as int], j)
                        && (self.is_pinned(j) <==> pinned),
                forall|j: u64| bit(rest, j) ==> bit(attackers, j),
                moves.distinct(),
                forall|m: Move| #[trigger]
                    old(moves).holds(m) ==> !(m.moved == pc && bit(attackers, m.from as u64)),
                forall|m: Move| #[trigger]
                    moves.holds(m) <==> old(moves).holds(m) || (m.moved == pc && bit(
                        attackers,
                        m.from as u64,
                    ) && !bit(rest, m.from as u64) && self.pseudo(m) && self.shielded(m)),
            decreases rest,
        {
            let ghost before = *moves;
            let from = pop_lsb(&mut rest);
            let sq = from as usize;
            let mut attacks = if pc == Piece::KNIGHT as u8 {
                Attacks::knight(sq)
            } else if pc == Piece::BISHOP as u8 {
                Attacks::bishop(sq, occ)
            } else if pc == Piece::ROOK as u8 {
                Attacks::rook(sq, occ)
            } else {
                Attacks::queen(sq, occ)
            };
            let ghost reach = attacks;
            attacks &= check_mask;
            if pinned {
                attacks &= line_through(king_sq, sq);
            }
            encode(moves, attacks & opps, from, Flag::CAP, pc);
            encode(moves, attacks & !occ, from, Flag::QUIET, pc);
            proof {
                lemma_bit_ops();
                assert forall|m: Move| #[trigger]
                    moves.holds(m) <==> old(moves).holds(m) || (m.moved == pc && bit(
                        attackers,
                        m.from as u64,
                    ) && !bit(rest, m.from as u64) && self.pseudo(m) && self.shielded(m)) by {
                    let to = m.to as u64;
                    if m.from == from && m.moved == pc {
                        lemma_board_pointwise(*self);
                        assert(from as u64 != k);
                        assert(bit(attacks, to) <==> bit(reach, to) && bit(check_mask, to) && (
                        pinned ==> collinear(k, from as u64, to)));
                        assert(self.is_pinned(from as u64) <==> pinned);
                    }
                }
            }
        }
        proof {
            lemma_bit_ops();
        }
    }

    /// Appends the covered moves of the pieces of kind `pc`.
    fn piece_moves(&self, moves: &mut MoveList, pc: u8, check_mask: u64, pinned: u64)
        requires
            self.wf(),
            Piece::KNIGHT <= pc <= Piece::QUEEN,
            forall|t: u64| t < 64 ==> (bit(check_mask, t) <==> self.parries(t)),
            forall|x: u64| bit(pinned, x) <==> self.is_pinned(x),
            old(moves).distinct(),
            forall|m: Move| #[trigger] old(moves).holds(m) ==> m.moved != pc,
        ensures
            final(moves).distinct(),
            forall|m: Move| #[trigger]
                final(moves).holds(m) <==> old(moves).holds(m) || (m.moved == pc && self.pseudo(m)
                    && self.shielded(m)),
    {
        proof {
            lemma_bit_ops();
        }
        let attackers = self.boys() & self.piece(pc as usize);
        self.piece_moves_internal(moves, pc, false, check_mask, attackers & !pinned);
        self.piece_moves_internal(moves, pc, true, check_mask, attackers & pinned);
        proof {
            assert forall|m: Move| #[trigger]
                moves.holds(m) <==> old(moves).holds(m) || (m.moved == pc && self.pseudo(m)
                    && self.shielded(m)) by {
                let from = m.from as u64;
                if m.moved == pc && self.pseudo(m) {
                    assert(bit(attackers, from));
                    assert(bit(attackers & !pinned, from) || bit(attackers & pinned, from));
                }
            }
        }
    }

    /// Appends the covered steps of the pawns on `pawns`, all of which
    /// shield the king (`pinned`) or none.
    fn pawn_pushes(
        &self,
        moves: &mut MoveList,
        side: usize,
        pinned: bool,
        pawns: u64,
        check_mask: u64,
    )
        requires
            self.wf(),
            side == self.us(),
            forall|t: u64|
                t < 64 && !bit(self.occupied(), t) ==> (bit(check_mask, t) <==> self.parries(t)),
            forall|j: u64|
                bit(pawns, j) ==> bit(self.bb[self.us()], j) && bit(self.bb[2], j) && (
                self.is_pinned(j) <==> pinned),
            old(moves).distinct(),
            forall|m: Move| #[trigger]
                old(moves).holds(m) ==> !(m.moved == Piece::PAWN && bit(pawns, m.from as u64)
                    && push_flag(m.flag)),
        ensures
            final(moves).distinct(),
            forall|m: Move| #[trigger]
                final(moves).holds(m) <==> old(moves).holds(m) || (m.moved == Piece::PAWN && bit(
                    pawns,
                    m.from as u64,
                ) && push_flag(m.flag) && self.pseudo(m) && self.shielded(m)),
    {
        proof {
            lemma_has_king(*self, self.us());
            lemma_board_pointwise(*self);
            lemma_bit_ops();
        }
        let occ = self.occ();
        let empty = !occ;
        let king_sq = self.king_index();
        let ghost k = king_sq as u64;
        let pen = Rank::PEN[side];

        let single0 = shift(side, empty & check_mask) & pawns & !pen;
        let mut pushable = single0;
        while pushable > 0
            invariant
                self.wf(),
                side == self.us(),
                occ == self.occupied(),
                empty == !occ,
                pen == Rank::PEN[side as int],
                king_sq < 64,
                k == king_sq,
                k == self.king_sq(self.us()),
                bit(self.bb[7], k),
                single0 == shift_spec(side as int, empty & check_mask) & pawns & !pen,
                forall|t: u64|
                    t < 64 && !bit(self.occupied(), t) ==> (bit(check_mask, t) <==> self.parries(
                        t,
                    )),
                forall|j: u64|
                    bit(pawns, j) ==> bit(self.bb[self.us()], j) && bit(self.bb[2], j) && (
                    self.is_pinned(j) <==> pinned),
                forall|j: u64| bit(pushable, j) ==> bit(single0, j),
                moves.distinct(),
                forall|m: Move| #[trigger]
                    old(moves).holds(m) ==> !(m.moved == Piece::PAWN && bit(pawns, m.from as u64)
                        && push_flag(m.flag)),
                forall|m: Move| #[trigger]
                    moves.holds(m) <==> old(moves).holds(m) || (m.moved == Piece::PAWN && bit(
                        single0,
                        m.from as u64,
                    ) && !bit(pushable, m.from as u64) && m.flag == Flag::QUIET && self.pseudo(m)
                        && self.shielded(m)),
            decreases pushable,
        {
            let from = pop_lsb(&mut pushable);
            proof {
                lemma_bit_ops();
                lemma_board_pointwise(*self);
            }
            let to = idx_shift(side, 8, from);
            proof {
                let f = from as u64;
                let t = to as u64;
                let line = line_mask(k, f);
                assert(bit(shift_spec(side as int, empty & check_mask), f));
                assert(t < 64 && bit(empty & check_mask, t));
                assert(!bit(occ, t) && bit(check_mask, t));
                assert(f != k);
                assert((line & only(t) != 0) <==> bit(line, t));
                lemma_line_masks(k, f, t);
                assert(bit(line, t) <==> collinear(k, f, t));
            }
            if !pinned || line_through(king_sq, from as usize) & (1u64 << (to as u64)) != 0 {
                moves.push(from, to, Flag::QUIET, Piece::PAWN as u8);
            }
        }
        let ghost mid1 = *moves;

        let promo0 = shift(side, empty & check_mask) & pawns & pen;
        let mut promotable = promo0;
        while promotable > 0
            invariant
                self.wf(),
                side == self.us(),
                occ == self.occupied(),
                empty == !occ,
                pen == Rank::PEN[side as int],
                king_sq < 64,
                k == king_sq,
                k == self.king_sq(self.us()),
                bit(self.bb[7], k),
                promo0 == shift_spec(side as int, empty & check_mask) & pawns & pen,
                forall|t: u64|
                    t < 64 && !bit(self.occupied(), t) ==> (bit(check_mask, t) <==> self.parries(
                        t,
                    )),
                forall|j: u64|
                    bit(pawns, j) ==> bit(self.bb[self.us()], j) && bit(self.bb[2], j) && (
                    self.is_pinned(j) <==> pinned),
                forall|j: u64| bit(promotable, j) ==> bit(promo0, j),
                moves.distinct(),
                forall|m: Move| #[trigger]
                    mid1.holds(m) ==> !(m.moved == Piece::PAWN && bit(pawns, m.from as u64)
                        && Flag::NPR <= m.flag <= Flag::QPR),
                forall|m: Move| #[trigger]
                    moves.holds(m) <==> mid1.holds(m) || (m.moved == Piece::PAWN && bit(
                        promo0,
                        m.from as u64,
                    ) && !bit(promotable, m.from as u64) && Flag::NPR <= m.flag <= Flag::QPR
                        && self.pseudo(m) && self.shielded(m)),
            decreases promotable,
        {
            let from = pop_lsb(&mut promotable);
            proof {
                lemma_bit_ops();
                lemma_board_pointwise(*self);
            }
            let to = idx_shift(side, 8, from);
            proof {
                let f = from as u64;
                let t = to as u64;
                let line = line_mask(k, f);
                assert(bit(shift_spec(side as int, empty & check_mask), f));
                assert(t < 64 && bit(empty & check_mask, t));
                assert(!bit(occ, t) && bit(check_mask, t));
                assert(f != k);
                assert((line & only(t) != 0) <==> bit(line, t));
                lemma_line_masks(k, f, t);
                assert(bit(line, t) <==> collinear(k, f, t));
            }
            if !pinned || line_through(king_sq, from as usize) & (1u64 << (to as u64)) != 0 {
                moves.push(from, to, Flag::QPR, Piece::PAWN as u8);
                moves.push(from, to, Flag::NPR, Piece::PAWN as u8);
                moves.push(from, to, Flag::BPR, Piece::PAWN as u8);
                moves.push(from, to, Flag::RPR, Piece::PAWN as u8);
            }
        }
        let ghost mid2 = *moves;

        let dbl0 = shift(side, shift(side, empty & Rank::DBL[side] & check_mask) & empty) & pawns;
        let mut dbl = dbl0;
        while dbl > 0
            invariant
                self.wf(),
                side == self.us(),
                occ == self.occupied(),
                empty == !occ,
                king_sq < 64,
                k == king_sq,
                k == self.king_sq(self.us()),
                bit(self.bb[7], k),
                dbl0 == shift_spec(
                    side as int,
                    shift_spec(side as int, empty & Rank::DBL[side as int] & check_mask) & empty,
                ) & pawns,
                forall|t: u64|
                    t < 64 && !bit(self.occupied(), t) ==> (bit(check_mask, t) <==> self.parries(
                        t,
                    )),
                forall|j: u64|
                    bit(pawns, j) ==> bit(self.bb[self.us()], j) && bit(self.bb[2], j) && (
                    self.is_pinned(j) <==> pinned),
                forall|j: u64| bit(dbl, j) ==> bit(dbl0, j),
                moves.distinct(),
                forall|m: Move| #[trigger]
                    mid2.holds(m) ==> !(m.moved == Piece::PAWN && bit(pawns, m.from as u64)
                        && m.flag == Flag::DBL),
                forall|m: Move| #[trigger]
                    moves.holds(m) <==> mid2.holds(m) || (m.moved == Piece::PAWN && bit(
                        dbl0,
                        m.from as u64,
                    ) && !bit(dbl, m.from as u64) && m.flag == Flag::DBL && self.pseudo(m)
                        && self.shielded(m)),
            decreases dbl,
        {
            let from = pop_lsb(&mut dbl);
            proof {
                lemma_bit_ops();
                lemma_board_pointwise(*self);
            }
            let to = idx_shift(side, 16, from);
            proof {
                let f = from as u64;
                let t = to as u64;
                let line = line_mask(k, f);
                let via = shift_spec(side as int, empty & Rank::DBL[side as int] & check_mask);
                let mid = ahead(side as int, f as int, 8) as u64;
                assert(bit(shift_spec(side as int, via & empty), f));
                assert(mid < 64 && bit(via & empty, mid));
                assert(bit(via, mid) && bit(empty, mid));
                assert(t < 64 && bit(empty & Rank::DBL[side as int] & check_mask, t));
                assert(!bit(occ, t) && bit(check_mask, t) && bit(Rank::DBL[side as int], t));
                assert(!bit(occ, mid));
                assert(f != k);
                assert((line & only(t) != 0) <==> bit(line, t));
                lemma_line_masks(k, f, t);
                assert(bit(line, t) <==> collinear(k, f, t));
            }
            if !pinned || line_through(king_sq, from as usize) & (1u64 << (to as u64)) != 0 {
                moves.push(from, to, Flag::DBL, Piece::PAWN as u8);
            }
        }
        proof {
            lemma_bit_ops();
            assert forall|m: Move| #[trigger]
                moves.holds(m) <==> old(moves).holds(m) || (m.moved == Piece::PAWN && bit(
                    pawns,
                    m.from as u64,
                ) && push_flag(m.flag) && self.pseudo(m) && self.shielded(m)) by {
                let from = m.from as u64;
                let to = m.to as u64;
                if m.moved == Piece::PAWN && bit(pawns, from) && push_flag(m.flag) && self.pseudo(
                    m,
                ) && self.shielded(m) {
                    assert(!bit(self.occupied(), to));
                    assert(bit(check_mask, to));
                    assert(bit(empty & check_mask, to));
                    if m.flag == Flag::DBL {
                        let mid = ahead(side as int, from as int, 8) as u64;
                        assert(bit(empty & Rank::DBL[side as int] & check_mask, to));
                        assert(bit(
                            shift_spec(side as int, empty & Rank::DBL[side as int] & check_mask),
                            mid,
                        ));
                        assert(bit(empty, mid));
                        assert(bit(dbl0, from));
                    } else {
                        assert(bit(shift_spec(side as int, empty & check_mask), from));
                    }
                }
            }
        }
    }

    /// Appends the covered captures of the pawns on `attackers`, all of
    /// which shield the king (`pinned`) or none.
    fn pawn_captures(&self, moves: &mut MoveList, pinned: bool, attackers: u64, checkers: u64)
        requires
            self.wf(),
            forall|t: u64|
                t < 64 && bit(self.bb[1 - self.us()], t) ==> (bit(checkers, t) <==> self.parries(
                    t,
                )),
            forall|j: u64|
                bit(attackers, j) ==> bit(self.bb[self.us()], j) && bit(self.bb[2], j) && (
                self.is_pinned(j) <==> pinned),
            old(moves).distinct(),
            forall|m: Move| #[trigger]
                old(moves).holds(m) ==> !(m.moved == Piece::PAWN && bit(attackers, m.from as u64)
                    && capture_flag(m.flag)),
        ensures
            final(moves).distinct(),
            forall|m: Move| #[trigger]
                final(moves).holds(m) <==> old(moves).holds(m) || (m.moved == Piece::PAWN && bit(
                    attackers,
                    m.from as u64,
                ) && capture_flag(m.flag) && self.pseudo(m) && self.shielded(m)),
    {
        proof {
            lemma_has_king(*self, self.us());
            lemma_board_pointwise(*self);
            lemma_bit_ops();
        }
        let side = self.stm();
        let opps = self.opps();
        let king_sq = self.king_index();
        let ghost k = king_sq as u64;
        let pen = Rank::PEN[side];
        let plain0 = attackers & !pen;
        let promo0 = attackers & pen;

        let mut rest = plain0;
        while rest > 0
            invariant
                self.wf(),
                side == self.us(),
                opps == self.bb[1 - self.us()],
                pen == Rank::PEN[side as int],
                king_sq < 64,
                k == king_sq,
                k == self.king_sq(self.us()),
                bit(self.bb[7], k),
                plain0 == attackers & !pen,
                forall|t: u64|
                    t < 64 && bit(self.bb[1 - self.us()], t) ==> (bit(checkers, t)
                        <==> self.parries(t)),
                forall|j: u64|
                    bit(attackers, j) ==> bit(self.bb[self.us()], j) && bit(self.bb[2], j) && (
                    self.is_pinned(j) <==> pinned),
                forall|j: u64| bit(rest, j) ==> bit(plain0, j),
                moves.distinct(),
                forall|m: Move| #[trigger]
                    old(moves).holds(m) ==> !(m.moved == Piece::PAWN && bit(
                        attackers,
                        m.from as u64,
                    ) && capture_flag(m.flag)),
                forall|m: Move| #[trigger]
                    moves.holds(m) <==> old(moves).holds(m) || (m.moved == Piece::PAWN && bit(
                        plain0,
                        m.from as u64,
                    ) && !bit(rest, m.from as u64) && m.flag == Flag::CAP && self.pseudo(m)
                        && self.shielded(m)),
            decreases rest,
        {
            let from = pop_lsb(&mut rest);
            let mut attacks = Attacks::pawn(from as usize, side) & opps & checkers;
            if pinned {
                attacks &= line_through(king_sq, from as usize);
            }
            proof {
                lemma_bit_ops();
            }
            encode(moves, attacks, from, Flag::CAP, Piece::PAWN as u8);
            proof {
                lemma_bit_ops();
                lemma_board_pointwise(*self);
                assert(from as u64 != k);
            }
        }
        let ghost mid = *moves;

        rest = promo0;
        while rest > 0
            invariant
                self.wf(),
                side == self.us(),
                opps == self.bb[1 - self.us()],
                pen == Rank::PEN[side as int],
                king_sq < 64,
                k == king_sq,
                k == self.king_sq(self.us()),
                bit(self.bb[7], k),
                promo0 == attackers & pen,
                forall|t: u64|
                    t < 64 && bit(self.bb[1 - self.us()], t) ==> (bit(checkers, t)
                        <==> self.parries(t)),
                forall|j: u64|
                    bit(attackers, j) ==> bit(self.bb[self.us()], j) && bit(self.bb[2], j) && (
                    self.is_pinned(j) <==> pinned),
                forall|j: u64| bit(rest, j) ==> bit(promo0, j),
                moves.distinct(),
                forall|m: Move| #[trigger]
                    mid.holds(m) ==> !(m.moved == Piece::PAWN && bit(promo0, m.from as u64)
                        && Flag::NPC <= m.flag <= Flag::QPC),
                forall|m: Move| #[trigger]
                    moves.holds(m) <==> mid.holds(m) || (m.moved == Piece::PAWN && bit(
                        promo0,
                        m.from as u64,
                    ) && !bit(rest, m.from as u64) && Flag::NPC <= m.flag <= Flag::QPC
                        && self.pseudo(m) && self.shielded(m)),
            decreases rest,
        {
            let from = pop_lsb(&mut rest);
            let mut attacks = Attacks::pawn(from as usize, side) & opps & checkers;
            if pinned {
                attacks &= line_through(king_sq, from as usize);
            }
            proof {
                lemma_bit_ops();
            }
            encode(moves, attacks, from, Flag::QPC, Piece::PAWN as u8);
            encode(moves, attacks, from, Flag::NPC, Piece::PAWN as u8);
            encode(moves, attacks, from, Flag::BPC, Piece::PAWN as u8);
            encode(moves, attacks, from, Flag::RPC, Piece::PAWN as u8);
            proof {
                lemma_bit_ops();
                lemma_board_pointwise(*self);
                assert(from as u64 != k);
            }
        }
        proof {
            lemma_bit_ops();
        }
    }

    /// Appends the legal captures in passing: each is played on a copy of
    /// the position and kept where it leaves the king safe.
    fn en_passants(&self, moves: &mut MoveList, pawns: u64)
        requires
            self.wf(),
            self.enp_sq != 0,
            pawns == self.bb[2] & self.bb[self.us()],
            old(moves).distinct(),
            forall|m: Move| #[trigger]
                old(moves).holds(m) ==> !(m.flag == Flag::ENP && m.moved == Piece::PAWN),
        ensures
            final(moves).distinct(),
            forall|m: Move| #[trigger]
                final(moves).holds(m) <==> old(moves).holds(m) || (m.flag == Flag::ENP
                    && self.legal(m)),
    {
        proof {
            lemma_bit_ops();
        }
        let enp = self.enp_sq();
        let side = self.stm();
        let att0 = Attacks::pawn(enp as usize, 1 - side) & pawns;
        let mut attackers = att0;
        while attackers > 0
            invariant
                self.wf(),
                self.enp_sq != 0,
                enp == self.enp_sq,
                side == self.us(),
                pawns == self.bb[2] & self.bb[self.us()],
                att0 == pawn_mask(enp as u64, (1 - side) as u64) & pawns,
                forall|j: u64| bit(attackers, j) ==> bit(att0, j),
                moves.distinct(),
                forall|m: Move| #[trigger]
                old(moves).holds(m) ==> !(m.flag == Flag::ENP && m.moved == Piece::PAWN),
                forall|m: Move| #[trigger]
                    moves.holds(m) <==> old(moves).holds(m) || (m.flag == Flag::ENP && bit(
                        att0,
                        m.from as u64,
                    ) && !bit(attackers, m.from as u64) && self.legal(m)),
            decreases attackers,
        {
            let from = pop_lsb(&mut attackers);
            let mut tmp = *self;
            let mov = Move::new(from, enp, Flag::ENP, Piece::PAWN as u8);
            proof {
                lemma_bit_ops();
                self.lemma_ep_shape(mov);
                lemma_ep_king(*self, mov);
            }
            tmp.make(mov);
            let king = (tmp.piece(Piece::KING) & tmp.opps()).trailing_zeros() as usize;
            if !tmp.is_square_attacked(king, side, tmp.occ()) {
                moves.push(from, enp, Flag::ENP, Piece::PAWN as u8);
            }
            proof {
                assert forall|m: Move| m.flag == Flag::ENP && m.from == from && self.pseudo(
                    m,
                ) implies m == mov by {
                    self.lemma_ep_shape(m);
                }
            }
        }
        proof {
            lemma_bit_ops();
            assert forall|m: Move| m.flag == Flag::ENP && self.pseudo(m) implies bit(
                att0,
                m.from as u64,
            ) by {
                self.lemma_ep_shape(m);
            }
        }
    }

    /// A capture in passing is the move of a pawn of the side to move that
    /// attacks the en-passant square.
    pub(crate) proof fn lemma_ep_shape(&self, m: Move)
        requires
            self.wf(),
            self.enp_sq != 0,
            m.flag == Flag::ENP,
        ensures
            self.enp_sq < 64,
            self.pseudo(m) <==> m.moved == Piece::PAWN && m.to == self.enp_sq && bit(
                pawn_mask(self.enp_sq as u64, (1 - self.us()) as u64) & (self.bb[2]
                    & self.bb[self.us()]),
                m.from as u64,
            ),
    {
        lemma_bit_ops();
        let from = m.from as u64;
        let to = self.enp_sq as u64;
        if from < 64 {
            crate::attacks::lemma_pawn_mask(to, from);
            lemma_symmetry(to, from, 0);
        }
    }

    /// Appends the moves of all pieces but the king, where at most one piece
    /// gives check and the masks say which squares end the check and which
    /// pieces shield the king.
    fn gen_pnbrq(&self, moves: &mut MoveList, checkers: u64, free: u64, pinned: u64)
        requires
            self.wf(),
            self.few_checks(),
            forall|t: u64|
                t < 64 && !bit(self.occupied(), t) ==> (bit(free, t) <==> self.parries(t)),
            forall|t: u64|
                t < 64 && bit(self.bb[1 - self.us()], t) ==> (bit(checkers, t) <==> self.parries(
                    t,
                )),
            forall|t: u64| t < 64 ==> (bit(free | checkers, t) <==> self.parries(t)),
            forall|x: u64| bit(pinned, x) <==> self.is_pinned(x),
            old(moves).distinct(),
            forall|m: Move| #[trigger] old(moves).holds(m) ==> m.moved == Piece::KING,
        ensures
            final(moves).distinct(),
            forall|m: Move| #[trigger]
                final(moves).holds(m) <==> old(moves).holds(m) || (m.moved != Piece::KING
                    && self.generated(m)),
    {
        proof {
            lemma_bit_ops();
        }
        let boys = self.boys();
        let pawns = self.piece(Piece::PAWN) & boys;
        let side = self.stm();
        let pinned_pawns = pawns & pinned;
        let free_pawns = pawns & !pinned;
        let check_mask = free | checkers;

        self.pawn_pushes(moves, side, false, free_pawns, free);
        self.pawn_pushes(moves, side, true, pinned_pawns, free);

        if self.enp_sq() > 0 {
            self.en_passants(moves, pawns);
        }
        self.pawn_captures(moves, false, free_pawns, checkers);
        self.pawn_captures(moves, true, pinned_pawns, checkers);

        self.piece_moves(moves, Piece::KNIGHT as u8, check_mask, pinned);
        self.piece_moves(moves, Piece::BISHOP as u8, check_mask, pinned);
        self.piece_moves(moves, Piece::ROOK as u8, check_mask, pinned);
        self.piece_moves(moves, Piece::QUEEN as u8, check_mask, pinned);
        proof {
            assert forall|m: Move| #[trigger]
                moves.holds(m) <==> old(moves).holds(m) || (m.moved != Piece::KING
                    && self.generated(m)) by {
                let from = m.from as u64;
                if self.pseudo(m) && m.moved == Piece::PAWN {
                    assert(bit(pawns, from));
                    assert(bit(free_pawns, from) || bit(pinned_pawns, from));
                    assert(push_flag(m.flag) || capture_flag(m.flag) || m.flag == Flag::ENP);
                }
                if m.flag == Flag::ENP && self.pseudo(m) {
                    assert(m.moved == Piece::PAWN);
                    assert(self.enp_sq != 0);
                }
            }
        }
    }

    /// The legal moves of the position: the list holds a move exactly when
    /// the move follows the rules for the piece that moves and does not
    /// leave the mover's king attacked.
    #[must_use]
    pub fn gen(&self) -> (moves: MoveList)
        requires
            self.wf(),
        ensures
            forall|m: Move| #[trigger] moves.holds(m) <==> self.legal(m),
            forall|m: Move| #[trigger] moves.holds(m) ==> !self.after(m).in_check(self.us()),
            moves.distinct(),
    {
        let mut moves = MoveList { list: Vec::new() };

        let checkers = self.checkers();
        let pinned = self.pinned();
        let king_sq = self.king_index();
        proof {
            lemma_has_king(*self, self.us());
            assert(forall|m: Move| !moves.holds(m));
        }

        self.king_moves(&mut moves);

        if checkers == 0 {
            proof {
                self.lemma_no_check(checkers);
                lemma_bit_ops();
            }
            self.gen_pnbrq(&mut moves, u64::MAX, u64::MAX, pinned);
            self.castles(&mut moves, self.occ());
        } else if checkers & (checkers - 1) == 0 {
            let checker_sq = checkers.trailing_zeros() as usize;
            proof {
                let c = lemma_bit_witness(checkers);
            }
            let free = in_between(king_sq, checker_sq);
            proof {
                self.lemma_one_check(checkers, free);
            }
            self.gen_pnbrq(&mut moves, checkers, free, pinned);
        } else {
            proof {
                self.lemma_two_checks(checkers);
            }
        }
        proof {
            assert forall|m: Move| #[trigger] moves.holds(m) <==> self.legal(m) by {
                lemma_generated_is_legal(*self, m);
                if self.pseudo(m) && m.moved == Piece::KING {
                    self.lemma_king_flags(m);
                }
                if checkers != 0 {
                    let c = lemma_bit_witness(checkers);
                    assert(self.checks(c));
                    assert(self.in_check(self.us()));
                }
            }
        }
        moves
    }

    /// The king moves by step or by castling, and does not castle out of
    /// check.
    proof fn lemma_king_flags(&self, m: Move)
        requires
            self.wf(),
            self.pseudo(m),
            m.moved == Piece::KING,
        ensures
            m.flag == Flag::QUIET || m.flag == Flag::CAP || m.flag == Flag::KS || m.flag
                == Flag::QS,
            m.flag == Flag::KS || m.flag == Flag::QS ==> !self.in_check(self.us()),
    {
        let us = self.us();
        lemma_has_king(*self, us);
        lemma_bit_ops();
        let from = m.from as u64;
        assert(bit(self.bb[7] & self.bb[us], from));
    }

    /// With no piece giving check every square ends every check.
    proof fn lemma_no_check(&self, checkers: u64)
        requires
            self.wf(),
            checkers == 0,
            forall|s: u64| bit(checkers, s) <==> self.checks(s),
        ensures
            self.few_checks(),
            forall|t: u64| self.parries(t),
            !self.in_check(self.us()),
    {
        lemma_bit_ops();
        let us = self.us();
        let k = self.king_sq(us);
        let occ = self.occupied();
        assert forall|s: u64| !#[trigger] self.attacks(s, k, us, occ) by {
            assert(!bit(checkers, s));
            assert(!self.checks(s));
        }
    }

    /// With one piece giving check a move ends the check where it takes
    /// that piece or lands between it and the king.
    proof fn lemma_one_check(&self, checkers: u64, free: u64)
        requires
            self.wf(),
            single(checkers),
            forall|s: u64| bit(checkers, s) <==> self.checks(s),
            free == between_mask(
                self.king_sq(self.us()),
                u64_trailing_zeros(checkers) as u64,
            ),
        ensures
            self.few_checks(),
            forall|t: u64|
                t < 64 && !bit(self.occupied(), t) ==> (bit(free, t) <==> self.parries(t)),
            forall|t: u64|
                t < 64 && bit(self.bb[1 - self.us()], t) ==> (bit(checkers, t) <==> self.parries(
                    t,
                )),
            forall|t: u64| t < 64 ==> (bit(free | checkers, t) <==> self.parries(t)),
    {
        let us = self.us();
        let k = self.king_sq(us);
        let occ = self.occupied();
        lemma_has_king(*self, us);
        lemma_bit_ops();
        lemma_board_pointwise(*self);
        let c = lemma_bit_witness(checkers);
        lemma_single(checkers, c);
        assert(self.checks(c));
        assert forall|s: u64| self.checks(s) implies s == c by {
            assert(bit(checkers, s));
        }
        assert(bit(occ, c));
        lemma_steps_gap(c, k);
        lemma_symmetry(c, k, occ);
        assert forall|t: u64| t < 64 implies (bit(free, t) <==> between(k, c, t)) by {
            lemma_line_masks(k, c, t);
        }
        assert forall|t: u64| #[trigger] between(k, c, t) implies !bit(occ, t) by {
            lemma_line_masks(c, k, t);
            lemma_line_masks(k, c, t);
            if rook_sees(occ, c, k) || bishop_sees(occ, c, k) {
                assert(between(c, k, t));
            }
        }
        assert forall|t: u64| t < 64 implies (self.parries(t) <==> t == c || between(k, c, t)) by {
            if t == c || between(k, c, t) {
                assert forall|d: u64| #[trigger] self.checks(d) implies t == d || between(
                    k,
                    d,
                    t,
                ) by {}
            }
        }
    }

    /// Two pieces give check where the set of checking pieces is neither
    /// empty nor a single square.
    proof fn lemma_two_checks(&self, checkers: u64)
        requires
            checkers != 0,
            !single(checkers),
            forall|s: u64| bit(checkers, s) <==> self.checks(s),
        ensures
            !self.few_checks(),
    {
        let c = lemma_bit_witness(checkers);
        axiom_u64_trailing_zeros(checkers);
        crate::bits::lemma_bit_lowest(checkers, c);
        let rest = checkers & ((checkers - 1) as u64);
        let d = lemma_bit_witness(rest);
        assert(bit(checkers, d) && d != c);
        assert(self.checks(c) && self.checks(d));
    }

    /// The enemy pieces that give check.
    #[must_use]
    fn checkers(&self) -> (r: u64)
        requires
            self.wf(),
        ensures
            forall|s: u64|
                bit(r, s) <==> self.attacks(s, self.king_sq(self.us()), self.us(), self.occupied()),
    {
        proof {
            lemma_has_king(*self, self.us());
        }
        self.attackers_to_square(self.king_index(), self.stm(), self.occ())
    }

    /// The pieces of the side to move that shield their king.
    #[must_use]
    fn pinned(&self) -> (r: u64)
        requires
            self.wf(),
        ensures
            forall|x: u64| bit(r, x) <==> self.is_pinned(x),
    {
        proof {
            lemma_has_king(*self, self.us());
        }
        let occ = self.occ();
        let boys = self.boys();
        let kidx = self.king_index();
        let opps = self.opps();
        let rq = self.piece(Piece::QUEEN) | self.piece(Piece::ROOK);
        let bq = self.piece(Piece::QUEEN) | self.piece(Piece::BISHOP);
        let ghost k = kidx as u64;

        let mut pinned: u64 = 0;

        let first = Attacks::xray_rook(kidx, occ, boys) & opps & rq;
        let mut pinners = first;
        proof {
            lemma_bit_ops();
        }
        while pinners > 0
            invariant
                self.wf(),
                kidx == self.king_sq(self.us()),
                kidx < 64,
                k == kidx,
                boys == self.bb[self.us()],
                forall|s: u64| bit(pinners, s) ==> bit(first, s),
                forall|x: u64|
                    bit(pinned, x) <==> exists|s: u64|
                        bit(first, s) && !bit(pinners, s) && #[trigger] between(k, s, x) && bit(
                            boys,
                            x,
                        ),
            decreases pinners,
        {
            let ghost before = pinners;
            let ghost had = pinned;
            let sq = pop_lsb(&mut pinners);
            let add = in_between(sq as usize, kidx) & boys;
            pinned |= add;
            proof {
                lemma_bit_ops();
                assert forall|x: u64|
                    bit(pinned, x) <==> exists|s: u64|
                        bit(first, s) && !bit(pinners, s) && #[trigger] between(k, s, x) && bit(
                            boys,
                            x,
                        ) by {
                    if bit(add, x) {
                        assert(between(k, sq as u64, x));
                    }
                    if bit(had, x) {
                        let s = choose|s: u64|
                            bit(first, s) && !bit(before, s) && #[trigger] between(k, s, x) && bit(
                                boys,
                                x,
                            );
                        assert(bit(first, s) && !bit(pinners, s) && between(k, s, x));
                    }
                }
            }
        }
        let ghost mid = pinned;

        let second = Attacks::xray_bishop(kidx, occ, boys) & opps & bq;
        pinners = second;
        while pinners > 0
            invariant
                self.wf(),
                kidx == self.king_sq(self.us()),
                kidx < 64,
                k == kidx,
                boys == self.bb[self.us()],
                forall|s: u64| bit(pinners, s) ==> bit(second, s),
                forall|x: u64|
                    bit(pinned, x) <==> bit(mid, x) || exists|s: u64|
                        bit(second, s) && !bit(pinners, s) && #[trigger] between(k, s, x) && bit(
                            boys,
                            x,
                        ),
            decreases pinners,
        {
            let ghost before = pinners;
            let ghost had = pinned;
            let sq = pop_lsb(&mut pinners);
            let add = in_between(sq as usize, kidx) & boys;
            pinned |= add;
            proof {
                lemma_bit_ops();
                assert forall|x: u64|
                    bit(pinned, x) <==> bit(mid, x) || exists|s: u64|
                        bit(second, s) && !bit(pinners, s) && #[trigger] between(k, s, x) && bit(
                            boys,
                            x,
                        ) by {
                    if bit(add, x) {
                        assert(between(k, sq as u64, x));
                    }
                    if bit(had, x) && !bit(mid, x) {
                        let s = choose|s: u64|
                            bit(second, s) && !bit(before, s) && #[trigger] between(k, s, x)
                                && bit(boys, x);
                        assert(bit(second, s) && !bit(pinners, s) && between(k, s, x));
                    }
                }
            }
        }
        proof {
            lemma_bit_ops();
            assert forall|x: u64| bit(pinned, x) <==> self.is_pinned(x) by {
                if bit(pinned, x) {
                    let s = if bit(mid, x) {
                        choose|s: u64|
                            bit(first, s) && !bit(0, s) && #[trigger] between(k, s, x) && bit(
                                boys,
                                x,
                            )
                    } else {
                        choose|s: u64|
                            bit(second, s) && !bit(0, s) && #[trigger] between(k, s, x) && bit(
                                boys,
                                x,
                            )
                    };
                    self.lemma_pinner(s, x);
                    assert(self.pins(s, x));
                }
                if self.is_pinned(x) {
                    let s = choose|s: u64| self.pins(s, x);
                    self.lemma_pinner(s, x);
                    assert(between(k, s, x));
                    assert(bit(first, s) || bit(second, s));
                }
            }
        }
        pinned
    }

    /// What the x-ray attacks from the king say of an enemy slider is what
    /// `pins` says of it.
    proof fn lemma_pinner(&self, s: u64, x: u64)
        requires
            self.wf(),
            s < 64,
        ensures
            one_blocker(self.occupied(), self.bb[self.us()], self.king_sq(self.us()), s) && between(
                self.king_sq(self.us()),
                s,
                x,
            ) && bit(self.bb[self.us()], x) ==> self.occupied() & between_mask(
                self.king_sq(self.us()),
                s,
            ) == only(x),
            self.occupied() & between_mask(self.king_sq(self.us()), s) == only(x) && bit(
                self.bb[self.us()],
                x,
            ) ==> one_blocker(self.occupied(), self.bb[self.us()], self.king_sq(self.us()), s)
                && between(self.king_sq(self.us()), s, x),
    {
        let us = self.us();
        let k = self.king_sq(us);
        lemma_has_king(*self, us);
        let z = self.occupied() & between_mask(k, s);
        lemma_bit_ops();
        if x < 64 {
            lemma_single(z, x);
            lemma_line_masks(k, s, x);
            if z == only(x) && bit(self.bb[us], x) {
                crate::bits::lemma_subset(z, self.bb[us], x);
            }
        }
    }
}

} // verus!
