//! Moves on trial: play a move that follows the rules for its piece and
//! see afterwards whether it was legal. The generator needs no such trial
//! but for captures in passing; a caller that makes moves of its own can
//! test them this way.

use vstd::prelude::*;
use crate::attacks::Attacks;
use crate::attacks::batt;
use crate::attacks::pawn_mask;
use crate::attacks::ratt;
use crate::bits::bit;
use crate::bits::lemma_bit_empty;
use crate::bits::lemma_bit_ops;
use crate::bits::lemma_bit_witness;
use crate::bits::lemma_byte_ops;
use crate::bits::only;
use crate::bits::pop_lsb;
use crate::consts::Flag;
use crate::consts::Piece;
use crate::consts::Rank;
use crate::geometry::lemma_symmetry;
use crate::legality::lemma_king_after;
use crate::movegen::encode;
use crate::movegen::idx_shift;
use crate::movegen::MoveList;
use crate::movegen::shift;
use crate::movegen::shift_spec;
use crate::position::Move;
use crate::position::Position;
use crate::rules::ahead;
use crate::rules::capture_flag;
use crate::rules::lemma_has_king;
use crate::rules::lemma_king_flags;
use crate::rules::push_flag;

verus! {

impl Position {
    /// Whether an enemy of `side` attacks `idx` when the occupied squares
    /// are `occ`. The kinds of piece are asked one after the other, and the
    /// first that attacks settles it.
    #[must_use]
    pub fn is_sq_att(&self, idx: usize, side: usize, occ: u64) -> (r: bool)
        requires
            idx < 64,
            side < 2,
        ensures
            r <==> self.attacked(idx as u64, side as int, occ),
    {
        let s = self.bb[1 - side];
        let n = Attacks::knight(idx) & self.bb[Piece::KNIGHT] & s;
        let k = Attacks::king(idx) & self.bb[Piece::KING] & s;
        let p = Attacks::pawn(idx, side) & self.bb[Piece::PAWN] & s;
        proof {
            lemma_bit_ops();
            let target = idx as u64;
            let defender = side as int;
            assert forall|x: u64| (bit(n, x) || bit(k, x) || bit(p, x)) implies #[trigger]
                self.attacks(x, target, defender, occ) by {
                lemma_symmetry(target, x, occ);
            }
            if n != 0 {
                let x = lemma_bit_witness(n);
                assert(self.attacks(x, target, defender, occ));
            }
            if k != 0 {
                let x = lemma_bit_witness(k);
                assert(self.attacks(x, target, defender, occ));
            }
            if p != 0 {
                let x = lemma_bit_witness(p);
                assert(self.attacks(x, target, defender, occ));
            }
        }
        if n > 0 || k > 0 || p > 0 {
            return true;
        }
        let r = ratt(idx, occ) & ((self.bb[Piece::ROOK] | self.bb[Piece::QUEEN]) & s);
        let b = batt(idx, occ) & ((self.bb[Piece::BISHOP] | self.bb[Piece::QUEEN]) & s);
        proof {
            lemma_bit_ops();
            let target = idx as u64;
            let defender = side as int;
            lemma_bit_empty(n);
            lemma_bit_empty(k);
            lemma_bit_empty(p);
            lemma_bit_empty(r);
            lemma_bit_empty(b);
            assert forall|x: u64| #[trigger]
                self.attacks(x, target, defender, occ) <==> bit(r, x) || bit(b, x) by {
                lemma_symmetry(target, x, occ);
                assert(!bit(n, x) && !bit(k, x) && !bit(p, x));
            }
            if r != 0 {
                let x = lemma_bit_witness(r);
                assert(self.attacks(x, target, defender, occ));
            }
            if b != 0 {
                let x = lemma_bit_witness(b);
                assert(self.attacks(x, target, defender, occ));
            }
        }
        r > 0 || b > 0
    }

    /// Appends the steps and captures of the pieces of kind `pc`, the king
    /// among them, whether or not they leave the king attacked.
    fn pc_moves(&self, moves: &mut MoveList, pc: u8)
        requires
            self.wf(),
            Piece::KNIGHT <= pc <= Piece::KING,
            old(moves).distinct(),
            forall|m: Move| #[trigger] old(moves).holds(m) ==> m.moved != pc,
        ensures
            final(moves).distinct(),
            forall|m: Move| #[trigger]
                final(moves).holds(m) <==> old(moves).holds(m) || (m.moved == pc && (m.flag
                    == Flag::QUIET || m.flag == Flag::CAP) && self.pseudo(m)),
    {
        proof {
            lemma_bit_ops();
        }
        let occ = self.occ();
        let opps = self.opps();
        let attackers = self.boys() & self.piece(pc as usize);
        let mut rest = attackers;
        while rest > 0
            invariant
                self.wf(),
                Piece::KNIGHT <= pc <= Piece::KING,
                occ == self.occupied(),
                opps == self.bb[1 - self.us()],
                attackers == self.bb[self.us()] & self.bb[pc as int],
                forall|j: u64| bit(rest, j) ==> bit(attackers, j),
                moves.distinct(),
                forall|m: Move| #[trigger] old(moves).holds(m) ==> m.moved != pc,
                forall|m: Move| #[trigger]
                    moves.holds(m) <==> old(moves).holds(m) || (m.moved == pc && (m.flag
                        == Flag::QUIET || m.flag == Flag::CAP) && !bit(rest, m.from as u64)
                        && self.pseudo(m)),
            decreases rest,
        {
            let from = pop_lsb(&mut rest);
            let sq = from as usize;
            let attacks = if pc == Piece::KNIGHT as u8 {
                Attacks::knight(sq)
            } else if pc == Piece::BISHOP as u8 {
                batt(sq, occ)
            } else if pc == Piece::ROOK as u8 {
                ratt(sq, occ)
            } else if pc == Piece::QUEEN as u8 {
                ratt(sq, occ) | batt(sq, occ)
            } else {
                Attacks::king(sq)
            };
            proof {
                lemma_bit_ops();
            }
            encode(moves, attacks & opps, from, Flag::CAP, pc);
            encode(moves, attacks & !occ, from, Flag::QUIET, pc);
            proof {
                assert forall|m: Move| #[trigger]
                    moves.holds(m) <==> old(moves).holds(m) || (m.moved == pc && (m.flag
                        == Flag::QUIET || m.flag == Flag::CAP) && !bit(rest, m.from as u64)
                        && self.pseudo(m)) by {
                    if m.from == from && m.moved == pc && (m.flag == Flag::QUIET || m.flag
                        == Flag::CAP) {
                        assert(bit(attackers, from as u64));
                        assert(!self.castle_pseudo(m));
                    }
                }
            }
        }
        proof {
            lemma_bit_ops();
        }
    }

    /// Appends the steps of the pawns, whether or not they leave the king
    /// attacked.
    fn pawn_steps(&self, moves: &mut MoveList)
        requires
            self.wf(),
            old(moves).distinct(),
            forall|m: Move| #[trigger] old(moves).holds(m) ==> m.moved != Piece::PAWN,
        ensures
            final(moves).distinct(),
            forall|m: Move| #[trigger]
                final(moves).holds(m) <==> old(moves).holds(m) || (m.moved == Piece::PAWN
                    && push_flag(m.flag) && self.pseudo(m)),
            forall|m: Move| #[trigger]
                final(moves).holds(m) && !old(moves).holds(m) ==> push_flag(m.flag),
    {
        proof {
            lemma_bit_ops();
        }
        let side = self.stm();
        let empty = !self.occ();
        let pawns = self.piece(Piece::PAWN) & self.boys();
        let pen = Rank::PEN[side];

        let single0 = shift(side, empty) & pawns & !pen;
        let mut pushable = single0;
        while pushable > 0
            invariant
                self.wf(),
                side == self.us(),
                empty == !self.occupied(),
                pawns == self.bb[2] & self.bb[self.us()],
                pen == Rank::PEN[side as int],
                single0 == shift_spec(side as int, empty) & pawns & !pen,
                forall|j: u64| bit(pushable, j) ==> bit(single0, j),
                moves.distinct(),
                forall|m: Move| #[trigger] old(moves).holds(m) ==> m.moved != Piece::PAWN,
                forall|m: Move| #[trigger]
                    moves.holds(m) <==> old(moves).holds(m) || (m.moved == Piece::PAWN && bit(
                        single0,
                        m.from as u64,
                    ) && !bit(pushable, m.from as u64) && m.flag == Flag::QUIET && self.pseudo(
                        m,
                    )),
            decreases pushable,
        {
            let from = pop_lsb(&mut pushable);
            proof {
                lemma_bit_ops();
                assert(bit(shift_spec(side as int, empty), from as u64));
            }
            let to = idx_shift(side, 8, from);
            moves.push(from, to, Flag::QUIET, Piece::PAWN as u8);
        }
        let ghost mid1 = *moves;

        let promo0 = shift(side, empty) & pawns & pen;
        let mut promotable = promo0;
        while promotable > 0
            invariant
                self.wf(),
                side == self.us(),
                empty == !self.occupied(),
                pawns == self.bb[2] & self.bb[self.us()],
                pen == Rank::PEN[side as int],
                promo0 == shift_spec(side as int, empty) & pawns & pen,
                forall|j: u64| bit(promotable, j) ==> bit(promo0, j),
                moves.distinct(),
                forall|m: Move| #[trigger]
                    mid1.holds(m) ==> !(m.moved == Piece::PAWN && Flag::NPR <= m.flag
                        <= Flag::QPR),
                forall|m: Move| #[trigger]
                    moves.holds(m) <==> mid1.holds(m) || (m.moved == Piece::PAWN && bit(
                        promo0,
                        m.from as u64,
                    ) && !bit(promotable, m.from as u64) && Flag::NPR <= m.flag <= Flag::QPR
                        && self.pseudo(m)),
            decreases promotable,
        {
            let from = pop_lsb(&mut promotable);
            proof {
                lemma_bit_ops();
                assert(bit(shift_spec(side as int, empty), from as u64));
            }
            let to = idx_shift(side, 8, from);
            moves.push(from, to, Flag::QPR, Piece::PAWN as u8);
            moves.push(from, to, Flag::NPR, Piece::PAWN as u8);
            moves.push(from, to, Flag::BPR, Piece::PAWN as u8);
            moves.push(from, to, Flag::RPR, Piece::PAWN as u8);
        }
        let ghost mid2 = *moves;

        let dbl0 = shift(side, shift(side, empty & Rank::DBL[side]) & empty) & pawns;
        let mut dbl = dbl0;
        while dbl > 0
            invariant
                self.wf(),
                side == self.us(),
                empty == !self.occupied(),
                pawns == self.bb[2] & self.bb[self.us()],
                dbl0 == shift_spec(
                    side as int,
                    shift_spec(side as int, empty & Rank::DBL[side as int]) & empty,
                ) & pawns,
                forall|j: u64| bit(dbl, j) ==> bit(dbl0, j),
                moves.distinct(),
                forall|m: Move| #[trigger]
                    mid2.holds(m) ==> !(m.moved == Piece::PAWN && m.flag == Flag::DBL),
                forall|m: Move| #[trigger]
                    moves.holds(m) <==> mid2.holds(m) || (m.moved == Piece::PAWN && bit(
                        dbl0,
                        m.from as u64,
                    ) && !bit(dbl, m.from as u64) && m.flag == Flag::DBL && self.pseudo(m)),
            decreases dbl,
        {
            let from = pop_lsb(&mut dbl);
            proof {
                lemma_bit_ops();
                let via = shift_spec(side as int, empty & Rank::DBL[side as int]);
                let mid = ahead(side as int, from as int, 8) as u64;
                assert(bit(shift_spec(side as int, via & empty), from as u64));
                assert(mid < 64 && bit(via & empty, mid));
                assert(bit(via, mid) && bit(empty, mid));
            }
            let to = idx_shift(side, 16, from);
            moves.push(from, to, Flag::DBL, Piece::PAWN as u8);
        }
        proof {
            lemma_bit_ops();
            assert forall|m: Move| #[trigger]
                moves.holds(m) <==> old(moves).holds(m) || (m.moved == Piece::PAWN && push_flag(
                    m.flag,
                ) && self.pseudo(m)) by {
                let from = m.from as u64;
                let to = m.to as u64;
                if m.moved == Piece::PAWN && push_flag(m.flag) && self.pseudo(m) {
                    assert(bit(pawns, from));
                    assert(!bit(self.occupied(), to));
                    assert(bit(empty, to));
                    if m.flag == Flag::DBL {
                        let mid = ahead(side as int, from as int, 8) as u64;
                        assert(bit(empty & Rank::DBL[side as int], to));
                        assert(bit(shift_spec(side as int, empty & Rank::DBL[side as int]), mid));
                        assert(bit(empty, mid));
                        assert(bit(dbl0, from));
                    } else {
                        assert(bit(shift_spec(side as int, empty), from));
                    }
                }
            }
        }
    }

    /// Appends the captures of the pawns, those in passing too, whether or
    /// not they leave the king attacked.
    fn pawn_takes(&self, moves: &mut MoveList)
        requires
            self.wf(),
            old(moves).distinct(),
            forall|m: Move| #[trigger]
                old(moves).holds(m) ==> m.moved != Piece::PAWN || push_flag(m.flag),
        ensures
            final(moves).distinct(),
            forall|m: Move| #[trigger]
                final(moves).holds(m) <==> old(moves).holds(m) || (m.moved == Piece::PAWN && (
                capture_flag(m.flag) || m.flag == Flag::ENP) && self.pseudo(m)),
    {
        proof {
            lemma_bit_ops();
            lemma_byte_ops();
        }
        let side = self.stm();
        let opps = self.opps();
        let pawns = self.piece(Piece::PAWN) & self.boys();
        let pen = Rank::PEN[side];
        let mut rest = pawns;
        while rest > 0
            invariant
                self.wf(),
                side == self.us(),
                opps == self.bb[1 - self.us()],
                pawns == self.bb[2] & self.bb[self.us()],
                pen == Rank::PEN[side as int],
                forall|j: u64| bit(rest, j) ==> bit(pawns, j),
                moves.distinct(),
                forall|m: Move| #[trigger]
                    old(moves).holds(m) ==> m.moved != Piece::PAWN || push_flag(m.flag),
                forall|m: Move| #[trigger]
                    moves.holds(m) <==> old(moves).holds(m) || (m.moved == Piece::PAWN
                        && capture_flag(m.flag) && !bit(rest, m.from as u64) && self.pseudo(m)),
            decreases rest,
        {
            let from = pop_lsb(&mut rest);
            let attacks = Attacks::pawn(from as usize, side) & opps;
            proof {
                lemma_bit_ops();
            }
            if pen & (1u64 << (from as u64)) != 0 {
                proof {
                    assert((pen & only(from as u64) != 0) <==> bit(pen, from as u64));
                }
                encode(moves, attacks, from, Flag::QPC, Piece::PAWN as u8);
                encode(moves, attacks, from, Flag::NPC, Piece::PAWN as u8);
                encode(moves, attacks, from, Flag::BPC, Piece::PAWN as u8);
                encode(moves, attacks, from, Flag::RPC, Piece::PAWN as u8);
            } else {
                proof {
                    assert((pen & only(from as u64) != 0) <==> bit(pen, from as u64));
                }
                encode(moves, attacks, from, Flag::CAP, Piece::PAWN as u8);
            }
        }
        let ghost mid = *moves;
        if self.enp_sq() > 0 {
            let enp = self.enp_sq();
            let att0 = Attacks::pawn(enp as usize, 1 - side) & pawns;
            let mut attackers = att0;
            while attackers > 0
                invariant
                    self.wf(),
                    self.enp_sq != 0,
                    enp == self.enp_sq,
                    side == self.us(),
                    pawns == self.bb[2] & self.bb[self.us()],
                    att0 == pawn_mask(enp as u64, (1 - side) as u64) & pawns,
                    forall|j: u64| bit(attackers, j) ==> bit(att0, j),
                    moves.distinct(),
                    forall|m: Move| #[trigger]
                        mid.holds(m) ==> !(m.flag == Flag::ENP && m.moved == Piece::PAWN),
                    forall|m: Move| #[trigger]
                        moves.holds(m) <==> mid.holds(m) || (m.flag == Flag::ENP && bit(
                            att0,
                            m.from as u64,
                        ) && !bit(attackers, m.from as u64) && self.pseudo(m)),
                decreases attackers,
            {
                let from = pop_lsb(&mut attackers);
                let ghost mov = Move { from, to: enp, flag: Flag::ENP, moved: Piece::PAWN as u8 };
                proof {
                    lemma_bit_ops();
                    self.lemma_ep_shape(mov);
                }
                moves.push(from, enp, Flag::ENP, Piece::PAWN as u8);
                proof {
                    assert forall|m: Move| m.flag == Flag::ENP && m.from == from && self.pseudo(
                        m,
                    ) implies m == mov by {
                        self.lemma_ep_shape(m);
                    }
                }
            }
            proof {
                lemma_bit_ops();
                assert forall|m: Move| m.flag == Flag::ENP && self.pseudo(m) implies bit(
                    att0,
                    m.from as u64,
                ) by {
                    self.lemma_ep_shape(m);
                }
            }
        }
    }

    /// The moves that follow the rules for their pieces, whether or not
    /// they leave the mover's king attacked; `do_move` tells the legal ones
    /// among them.
    #[must_use]
    pub fn gen_pseudo(&self) -> (moves: MoveList)
        requires
            self.wf(),
        ensures
            forall|m: Move| #[trigger] moves.holds(m) <==> self.pseudo(m),
            moves.distinct(),
    {
        let mut moves = MoveList { list: Vec::new() };
        proof {
            assert(forall|m: Move| !moves.holds(m));
        }
        self.pawn_steps(&mut moves);
        self.pawn_takes(&mut moves);
        self.pc_moves(&mut moves, Piece::KNIGHT as u8);
        self.pc_moves(&mut moves, Piece::BISHOP as u8);
        self.pc_moves(&mut moves, Piece::ROOK as u8);
        self.pc_moves(&mut moves, Piece::QUEEN as u8);
        self.pc_moves(&mut moves, Piece::KING as u8);
        let in_check = self.is_in_check();
        if !in_check {
            proof {
                assert forall|m: Move| #[trigger] moves.holds(m) implies m.flag != Flag::KS
                    && m.flag != Flag::QS by {
                    if self.pseudo(m) {
                        lemma_king_flags(*self, m);
                    }
                }
            }
            self.castles(&mut moves, self.occ());
        }
        proof {
            assert forall|m: Move| #[trigger] moves.holds(m) <==> self.pseudo(m) by {
                if self.pseudo(m) {
                    lemma_king_flags(*self, m);
                    if m.moved == Piece::PAWN {
                        assert(push_flag(m.flag) || capture_flag(m.flag) || m.flag == Flag::ENP);
                    }
                    if m.flag == Flag::KS || m.flag == Flag::QS {
                        assert(m.moved == Piece::KING);
                        assert(self.castle_pseudo(m));
                        lemma_has_king(*self, self.us());
                        lemma_bit_ops();
                        assert(bit(self.bb[7] & self.bb[self.us()], m.from as u64));
                        assert(!in_check);
                    }
                }
            }
        }
        moves
    }

    /// Plays `m`, a move that follows the rules for its piece, and says
    /// whether it has left the mover's king attacked: whether the move was
    /// not legal.
    pub fn do_move(&mut self, m: Move) -> (r: bool)
        requires
            old(self).wf(),
            old(self).pseudo(m),
        ensures
            *final(self) == old(self).after(m),
            r <==> final(self).in_check(old(self).us()),
            r <==> !old(self).legal(m),
    {
        let side = self.stm();
        proof {
            lemma_king_after(*self, m);
        }
        self.make(m);
        let king_idx = (self.bb[Piece::KING] & self.bb[side]).trailing_zeros() as usize;
        self.is_sq_att(king_idx, side, self.bb[0] | self.bb[1])
    }
}

} // verus!
