//! What holds of every game: a legal move leads from a sound position to a
//! sound position.

use vstd::prelude::*;
use vstd::std_specs::bits::axiom_u64_trailing_zeros;
use crate::bits::bit;
use crate::bits::lemma_bit_empty;
use crate::bits::lemma_bit_ext;
use crate::bits::lemma_bit_ops;
use crate::bits::lemma_byte_ops;
use crate::bits::lemma_single;
use crate::bits::only;
use crate::consts::CASTLE_MASK;
use crate::consts::Flag;
use crate::consts::Piece;
use crate::consts::Rank;
use crate::consts::Right;
use crate::effects::castled;
use crate::effects::landed;
use crate::effects::lemma_after_castle;
use crate::effects::lemma_after_ep;
use crate::effects::lemma_after_plain;
use crate::effects::lemma_king_sq_is;
use crate::effects::lemma_pseudo_plain;
use crate::effects::moved_to;
use crate::effects::took_in_passing;
use crate::position::Move;
use crate::position::Position;
use crate::rules::lemma_board_pointwise;
use crate::rules::lemma_has_king;
use crate::rules::lemma_king_flags;

verus! {

impl Position {
    /// The position is sound and can have come about in play: the side that
    /// has just moved did not leave its king attacked.
    pub open spec fn playable(&self) -> bool {
        self.wf() && !self.in_check(1 - self.us())
    }

    /// Whether the position is sound and can have come about in play.
    #[must_use]
    pub fn is_playable(&self) -> (r: bool)
        ensures
            r == self.playable(),
    {
        if !self.is_valid() {
            return false;
        }
        let them = 1 - self.stm();
        proof {
            lemma_has_king(*self, them as int);
            axiom_u64_trailing_zeros(self.bb[7] & self.bb[them as int]);
        }
        let king = (self.bb[Piece::KING] & self.bb[them]).trailing_zeros() as usize;
        !self.is_square_attacked(king, them, self.occ())
    }
}

/// A board is sound where, square by square, no two sides and no two kinds
/// meet, a square has a kind exactly when it has a side, and each side's
/// king stands on one square.
pub proof fn lemma_board_from_squares(q: Position, white: u64, black: u64)
    requires
        forall|s: u64| s < 64 ==> !(bit(q.bb[0], s) && bit(q.bb[1], s)),
        forall|s: u64, i: int, j: int|
            s < 64 && 2 <= i < j < 8 ==> !(bit(q.bb[i], s) && bit(q.bb[j], s)),
        forall|s: u64|
            s < 64 ==> (bit(q.bb[0], s) || bit(q.bb[1], s) <==> bit(q.bb[2], s) || bit(
                q.bb[3],
                s,
            ) || bit(q.bb[4], s) || bit(q.bb[5], s) || bit(q.bb[6], s) || bit(q.bb[7], s)),
        white < 64,
        black < 64,
        forall|s: u64| s < 64 ==> (bit(q.bb[7], s) && bit(q.bb[0], s) <==> s == white),
        forall|s: u64| s < 64 ==> (bit(q.bb[7], s) && bit(q.bb[1], s) <==> s == black),
    ensures
        q.board_wf(),
{
    lemma_bit_ops();
    lemma_bit_empty(q.bb[0] & q.bb[1]);
    assert forall|i: u64| !bit(q.bb[0] & q.bb[1], i) by {
        assert(bit(q.bb[0] & q.bb[1], i) <==> bit(q.bb[0], i) && bit(q.bb[1], i));
    }
    assert forall|i: int, j: int| 2 <= i < j < 8 implies #[trigger] q.bb[i] & #[trigger] q.bb[j]
        == 0 by {
        lemma_bit_empty(q.bb[i] & q.bb[j]);
        assert forall|s: u64| !bit(q.bb[i] & q.bb[j], s) by {
            assert(bit(q.bb[i] & q.bb[j], s) <==> bit(q.bb[i], s) && bit(q.bb[j], s));
        }
    }
    let kinds = q.bb[2] | q.bb[3] | q.bb[4] | q.bb[5] | q.bb[6] | q.bb[7];
    let sides = q.bb[0] | q.bb[1];
    assert forall|s: u64| s < 64 implies (bit(kinds, s) <==> bit(sides, s)) by {
        assert(bit(sides, s) <==> bit(q.bb[0], s) || bit(q.bb[1], s));
        assert(bit(kinds, s) <==> bit(q.bb[2], s) || bit(q.bb[3], s) || bit(q.bb[4], s) || bit(
            q.bb[5],
            s,
        ) || bit(q.bb[6], s) || bit(q.bb[7], s));
    }
    lemma_bit_ext(kinds, sides);
    lemma_king_sq_is(q, 0, white);
    lemma_king_sq_is(q, 1, black);
    lemma_single(q.bb[7] & q.bb[0], white);
    lemma_single(q.bb[7] & q.bb[1], black);
}

/// The table of rights that survive: a right lapses exactly on the first
/// squares of its king and its rook. And what the masks of rights do.
pub proof fn lemma_castle_mask(sq: int)
    requires
        0 <= sq < 64,
    ensures
        CASTLE_MASK[sq] & Right::WKS != 0 <==> sq != 4 && sq != 7,
        CASTLE_MASK[sq] & Right::WQS != 0 <==> sq != 4 && sq != 0,
        CASTLE_MASK[sq] & Right::BKS != 0 <==> sq != 60 && sq != 63,
        CASTLE_MASK[sq] & Right::BQS != 0 <==> sq != 60 && sq != 56,
{
    lemma_rights_bits();
    assert(CASTLE_MASK[sq] == 15 || sq == 0 || sq == 4 || sq == 7 || sq == 56 || sq == 60 || sq
        == 63);
}

proof fn lemma_rights_bits()
    by (bit_vector)
    ensures
        forall|a: u8, b: u8, c: u8, x: u8| #[trigger]
            ((a & (b & c)) & x) != 0 ==> a & x != 0 && b & x != 0 && c & x != 0,
        forall|a: u8, b: u8| a < 16 ==> #[trigger] (a & b) < 16,
        15u8 & 8 != 0 && 15u8 & 4 != 0 && 15u8 & 2 != 0 && 15u8 & 1 != 0,
        7u8 & 8 == 0 && 7u8 & 4 != 0 && 7u8 & 2 != 0 && 7u8 & 1 != 0,
        3u8 & 8 == 0 && 3u8 & 4 == 0 && 3u8 & 2 != 0 && 3u8 & 1 != 0,
        11u8 & 8 != 0 && 11u8 & 4 == 0 && 11u8 & 2 != 0 && 11u8 & 1 != 0,
        13u8 & 8 != 0 && 13u8 & 4 != 0 && 13u8 & 2 == 0 && 13u8 & 1 != 0,
        12u8 & 8 != 0 && 12u8 & 4 != 0 && 12u8 & 2 == 0 && 12u8 & 1 == 0,
        14u8 & 8 != 0 && 14u8 & 4 != 0 && 14u8 & 2 != 0 && 14u8 & 1 == 0,
        forall|s: u64| #[trigger] bit(0x0000_0000_FF00_0000, s) <==> 24 <= s < 32,
        forall|s: u64| #[trigger] bit(0x0000_00FF_0000_0000, s) <==> 32 <= s < 40,
{
}

/// The rights that a position holds after a move are sound where king and
/// rook of every right that was held stand where they stood, unless the
/// move has left or reached one of their squares.
pub proof fn lemma_rights_kept(p: Position, q: Position, m: Move)
    requires
        p.rights_wf(),
        m.from < 64,
        m.to < 64,
        q.rights == p.rights & (CASTLE_MASK[m.to as int] & CASTLE_MASK[m.from as int]),
        forall|s: u64, i: int|
            s < 64 && s != m.from && s != m.to && 0 <= i < 8 && bit(p.bb[i], s) && (s < 8
                && m.from != 4 || s >= 56 && m.from != 60) ==> bit(q.bb[i], s),
    ensures
        q.rights_wf(),
{
    lemma_rights_bits();
    lemma_castle_mask(m.to as int);
    lemma_castle_mask(m.from as int);
    let a = p.rights;
    let b = CASTLE_MASK[m.to as int];
    let c = CASTLE_MASK[m.from as int];
    assert(((a & (b & c)) & Right::WKS) != 0 ==> a & Right::WKS != 0 && b & Right::WKS != 0 && c
        & Right::WKS != 0);
    assert(((a & (b & c)) & Right::WQS) != 0 ==> a & Right::WQS != 0 && b & Right::WQS != 0 && c
        & Right::WQS != 0);
    assert(((a & (b & c)) & Right::BKS) != 0 ==> a & Right::BKS != 0 && b & Right::BKS != 0 && c
        & Right::BKS != 0);
    assert(((a & (b & c)) & Right::BQS) != 0 ==> a & Right::BQS != 0 && b & Right::BQS != 0 && c
        & Right::BQS != 0);
}

/// A move that follows the rules reaches the enemy king's square only
/// where that king is attacked.
pub proof fn lemma_no_king_capture(p: Position, m: Move)
    requires
        p.wf(),
        p.pseudo(m),
        !p.in_check(1 - p.us()),
    ensures
        !bit(p.bb[7], m.to as u64),
{
    let us = p.us();
    let them = 1 - us;
    let from = m.from as u64;
    let to = m.to as u64;
    let occ = p.occupied();
    lemma_bit_ops();
    lemma_byte_ops();
    lemma_board_pointwise(p);
    lemma_has_king(p, them);
    lemma_has_king(p, us);
    lemma_king_flags(p, m);
    if bit(p.bb[7], to) {
        assert(bit(occ, to));
        if m.flag == Flag::KS || m.flag == Flag::QS {
            lemma_after_castle(p, m);
            crate::effects::lemma_castle_consts();
            let path = if m.flag == Flag::KS {
                crate::consts::Path::TABLE[us][1]
            } else {
                crate::consts::Path::TABLE[us][0]
            };
            assert(bit(occ & path, to) <==> bit(occ, to) && bit(path, to));
            assert(false);
        }
        assert(bit(p.bb[them], to));
        assert(bit(p.bb[7] & p.bb[them], to));
        assert(to == p.king_sq(them));
        assert(p.attacks(from, to, them, occ));
        assert(false);
    }
}

/// A plain legal move leads from a position that can have come about in
/// play to a sound position.
pub proof fn lemma_plain_keeps_wf(p: Position, m: Move)
    requires
        p.playable(),
        p.pseudo(m),
        m.flag != Flag::KS,
        m.flag != Flag::QS,
        m.flag != Flag::ENP,
    ensures
        p.after(m).wf(),
{
    let us = p.us();
    let them = 1 - us;
    let from = m.from as u64;
    let to = m.to as u64;
    let q = p.after(m);
    let kind = landed(m);
    lemma_bit_ops();
    lemma_byte_ops();
    lemma_board_pointwise(p);
    lemma_has_king(p, them);
    lemma_has_king(p, us);
    lemma_king_flags(p, m);
    lemma_pseudo_plain(p, m);
    lemma_after_plain(p, m);
    lemma_no_king_capture(p, m);
    assert(moved_to(p, q, from, to, kind));
    assert(2 <= kind < 8);
    let k = p.king_sq(us);
    let e = p.king_sq(them);
    let k2 = if m.moved == Piece::KING {
        to
    } else {
        k
    };
    assert(bit(p.bb[7] & p.bb[us], from) <==> bit(p.bb[7], from) && bit(p.bb[us], from));
    assert(m.moved == Piece::KING <==> from == k);
    assert(kind == 7 <==> m.moved == Piece::KING);
    assert(bit(p.occupied(), k));
    assert(to != e);
    assert forall|s: u64| s < 64 implies (bit(q.bb[7], s) && bit(q.bb[us], s) <==> s == k2) by {
        assert(bit(q.bb[us], s) <==> s == to || (bit(p.bb[us], s) && s != from));
        assert(bit(q.bb[7], s) <==> if s == to {
            kind == 7
        } else {
            bit(p.bb[7], s) && s != from
        });
        assert(bit(p.bb[7] & p.bb[us], s) <==> bit(p.bb[7], s) && bit(p.bb[us], s));
    }
    assert forall|s: u64| s < 64 implies (bit(q.bb[7], s) && bit(q.bb[them], s) <==> s == e) by {
        assert(bit(q.bb[them], s) <==> bit(p.bb[them], s) && s != to);
        assert(bit(q.bb[7], s) <==> if s == to {
            kind == 7
        } else {
            bit(p.bb[7], s) && s != from
        });
        assert(bit(p.bb[7] & p.bb[them], s) <==> bit(p.bb[7], s) && bit(p.bb[them], s));
    }
    assert forall|s: u64| s < 64 implies !(bit(q.bb[0], s) && bit(q.bb[1], s)) by {
        assert(bit(q.bb[us], s) <==> s == to || (bit(p.bb[us], s) && s != from));
        assert(bit(q.bb[them], s) <==> bit(p.bb[them], s) && s != to);
    }
    assert forall|s: u64, i: int, j: int| s < 64 && 2 <= i < j < 8 implies !(bit(q.bb[i], s)
        && bit(q.bb[j], s)) by {
        assert(bit(q.bb[i], s) <==> if s == to {
            i == kind
        } else {
            bit(p.bb[i], s) && s != from
        });
        assert(bit(q.bb[j], s) <==> if s == to {
            j == kind
        } else {
            bit(p.bb[j], s) && s != from
        });
    }
    assert forall|s: u64| s < 64 implies (bit(q.bb[0], s) || bit(q.bb[1], s) <==> bit(
        q.bb[2],
        s,
    ) || bit(q.bb[3], s) || bit(q.bb[4], s) || bit(q.bb[5], s) || bit(q.bb[6], s) || bit(
        q.bb[7],
        s,
    )) by {
        assert(bit(q.bb[us], s) <==> s == to || (bit(p.bb[us], s) && s != from));
        assert(bit(q.bb[them], s) <==> bit(p.bb[them], s) && s != to);
        assert forall|i: int| 2 <= i < 8 implies (#[trigger] bit(q.bb[i], s) <==> if s == to {
            i == kind
        } else {
            bit(p.bb[i], s) && s != from
        }) by {}
        assert(bit(p.occupied(), s) <==> bit(p.bb[0], s) || bit(p.bb[1], s));
        assert(bit(q.bb[kind], to));
    }
    if us == 0 {
        lemma_board_from_squares(q, k2, e);
    } else {
        lemma_board_from_squares(q, e, k2);
    }
    assert forall|s: u64, i: int|
        s < 64 && s != m.from && s != m.to && 0 <= i < 8 && bit(p.bb[i], s) implies bit(
        q.bb[i],
        s,
    ) by {
        if i >= 2 {
            assert(bit(q.bb[i], s) <==> bit(p.bb[i], s) && s != from);
        } else if i == us {
            assert(bit(q.bb[us], s) <==> s == to || (bit(p.bb[us], s) && s != from));
        } else {
            assert(bit(q.bb[them], s) <==> bit(p.bb[them], s) && s != to);
        }
    }
    lemma_rights_kept(p, q, m);
    if m.flag == Flag::DBL {
        lemma_rights_bits();
        assert(m.moved == Piece::PAWN);
        assert(p.pawn_pseudo(m));
        assert(q.enp_sq == m.to ^ 8);
        assert(q.stm == !p.stm);
        let mid = (m.to ^ 8) as u64;
        assert(bit(Rank::DBL[us], to));
        assert((mid ^ 8) == to) by {
            assert((m.to ^ 8) ^ 8 == m.to);
        }
        assert(bit(q.bb[2], to));
        assert(bit(q.bb[us], to));
        assert(!bit(p.occupied(), mid));
        assert(bit(q.occupied(), mid) <==> bit(q.bb[0], mid) || bit(q.bb[1], mid));
        assert(bit(q.bb[us], mid) <==> mid == to || (bit(p.bb[us], mid) && mid != from));
        assert(bit(q.bb[them], mid) <==> bit(p.bb[them], mid) && mid != to);
        assert(bit(p.occupied(), mid) <==> bit(p.bb[0], mid) || bit(p.bb[1], mid));
        assert(q.enp_wf());
    } else {
        assert(q.enp_sq == 0);
    }
}

/// Castling leads from a sound position to a sound position.
pub proof fn lemma_castle_keeps_wf(p: Position, m: Move)
    requires
        p.wf(),
        p.pseudo(m),
        m.flag == Flag::KS || m.flag == Flag::QS,
    ensures
        p.after(m).wf(),
{
    let us = p.us();
    let them = 1 - us;
    let from = m.from as u64;
    let to = m.to as u64;
    let q = p.after(m);
    let home: u64 = if p.stm {
        60
    } else {
        4
    };
    let corner = if m.flag == Flag::KS {
        (home + 3) as u64
    } else {
        (home - 4) as u64
    };
    let next = if m.flag == Flag::KS {
        (home + 1) as u64
    } else {
        (home - 1) as u64
    };
    lemma_bit_ops();
    lemma_byte_ops();
    lemma_board_pointwise(p);
    lemma_has_king(p, them);
    lemma_has_king(p, us);
    lemma_after_castle(p, m);
    crate::effects::lemma_castle_consts();
    assert(castled(p, q, home, to, corner, next));
    assert(p.castle_pseudo(m));
    let occ = p.occupied();
    let path = if m.flag == Flag::KS {
        crate::consts::Path::TABLE[us][1]
    } else {
        crate::consts::Path::TABLE[us][0]
    };
    assert(bit(occ & path, to) <==> bit(occ, to) && bit(path, to));
    assert(bit(occ & path, next) <==> bit(occ, next) && bit(path, next));
    assert(!bit(occ, to) && !bit(occ, next));
    assert(p.can_still_castle(us, home, corner));
    let e = p.king_sq(them);
    assert(bit(p.bb[7] & p.bb[us], home));
    assert(home == p.king_sq(us));
    assert forall|s: u64| s < 64 implies (bit(q.bb[7], s) && bit(q.bb[us], s) <==> s == to) by {
        assert(bit(q.bb[7], s) <==> s == to || (bit(p.bb[7], s) && s != home));
        assert(bit(q.bb[us], s) <==> s == to || s == next || (bit(p.bb[us], s) && s != home && s
            != corner));
        assert(bit(p.bb[7] & p.bb[us], s) <==> bit(p.bb[7], s) && bit(p.bb[us], s));
    }
    assert forall|s: u64| s < 64 implies (bit(q.bb[7], s) && bit(q.bb[them], s) <==> s == e) by {
        assert(bit(q.bb[7], s) <==> s == to || (bit(p.bb[7], s) && s != home));
        assert(bit(q.bb[them], s) <==> bit(p.bb[them], s));
        assert(bit(p.bb[7] & p.bb[them], s) <==> bit(p.bb[7], s) && bit(p.bb[them], s));
        assert(bit(occ, s) <==> bit(p.bb[0], s) || bit(p.bb[1], s));
    }
    assert forall|s: u64| s < 64 implies !(bit(q.bb[0], s) && bit(q.bb[1], s)) by {
        assert(bit(q.bb[us], s) <==> s == to || s == next || (bit(p.bb[us], s) && s != home && s
            != corner));
        assert(bit(q.bb[them], s) <==> bit(p.bb[them], s));
        assert(bit(occ, s) <==> bit(p.bb[0], s) || bit(p.bb[1], s));
    }
    assert forall|s: u64, i: int| s < 64 && 2 <= i < 8 implies (#[trigger] bit(q.bb[i], s)
        <==> if s == to {
        i == 7
    } else if s == next {
        i == 5
    } else {
        bit(p.bb[i], s) && s != home && s != corner
    }) by {
        assert(bit(q.bb[7], s) <==> s == to || (bit(p.bb[7], s) && s != home));
        assert(bit(q.bb[5], s) <==> s == next || (bit(p.bb[5], s) && s != corner));
        if i != 5 && i != 7 {
            assert(bit(q.bb[i], s) <==> bit(p.bb[i], s));
        }
        assert(bit(occ, s) <==> bit(p.bb[0], s) || bit(p.bb[1], s));
    }
    assert forall|s: u64, i: int, j: int| s < 64 && 2 <= i < j < 8 implies !(bit(q.bb[i], s)
        && bit(q.bb[j], s)) by {}
    assert forall|s: u64| s < 64 implies (bit(q.bb[0], s) || bit(q.bb[1], s) <==> bit(
        q.bb[2],
        s,
    ) || bit(q.bb[3], s) || bit(q.bb[4], s) || bit(q.bb[5], s) || bit(q.bb[6], s) || bit(
        q.bb[7],
        s,
    )) by {
        assert(bit(q.bb[us], s) <==> s == to || s == next || (bit(p.bb[us], s) && s != home && s
            != corner));
        assert(bit(q.bb[them], s) <==> bit(p.bb[them], s));
        assert(bit(occ, s) <==> bit(p.bb[0], s) || bit(p.bb[1], s));
        assert(bit(q.bb[7], to) && bit(q.bb[5], next));
    }
    if us == 0 {
        lemma_board_from_squares(q, to, e);
    } else {
        lemma_board_from_squares(q, e, to);
    }
    assert forall|s: u64, i: int|
        s < 64 && s != m.from && s != m.to && 0 <= i < 8 && bit(p.bb[i], s) && (s < 8 && m.from
            != 4 || s >= 56 && m.from != 60) implies bit(q.bb[i], s) by {
        if i >= 2 {
        } else if i == us {
            assert(bit(q.bb[us], s) <==> s == to || s == next || (bit(p.bb[us], s) && s != home
                && s != corner));
        } else {
            assert(bit(q.bb[them], s) <==> bit(p.bb[them], s));
        }
    }
    lemma_rights_kept(p, q, m);
}

/// A capture in passing leads from a sound position to a sound position.
pub proof fn lemma_ep_keeps_wf(p: Position, m: Move)
    requires
        p.wf(),
        p.pseudo(m),
        m.flag == Flag::ENP,
    ensures
        p.after(m).wf(),
{
    let us = p.us();
    let them = 1 - us;
    let from = m.from as u64;
    let to = m.to as u64;
    let v = (m.to ^ 8) as u64;
    let q = p.after(m);
    let occ = p.occupied();
    lemma_bit_ops();
    lemma_byte_ops();
    lemma_board_pointwise(p);
    lemma_has_king(p, them);
    lemma_has_king(p, us);
    lemma_after_ep(p, m);
    assert(took_in_passing(p, q, from, to, v));
    let k = p.king_sq(us);
    let e = p.king_sq(them);
    assert(!bit(occ, to));
    assert(bit(p.bb[2], v) && bit(p.bb[them], v));
    assert(bit(p.bb[2], from) && bit(p.bb[us], from));
    assert forall|s: u64| s < 64 implies (bit(q.bb[7], s) && bit(q.bb[us], s) <==> s == k) by {
        assert(bit(q.bb[7], s) <==> bit(p.bb[7], s));
        assert(bit(q.bb[us], s) <==> s == to || (bit(p.bb[us], s) && s != from));
        assert(bit(p.bb[7] & p.bb[us], s) <==> bit(p.bb[7], s) && bit(p.bb[us], s));
        assert(bit(occ, s) <==> bit(p.bb[0], s) || bit(p.bb[1], s));
    }
    assert forall|s: u64| s < 64 implies (bit(q.bb[7], s) && bit(q.bb[them], s) <==> s == e) by {
        assert(bit(q.bb[7], s) <==> bit(p.bb[7], s));
        assert(bit(q.bb[them], s) <==> bit(p.bb[them], s) && s != v);
        assert(bit(p.bb[7] & p.bb[them], s) <==> bit(p.bb[7], s) && bit(p.bb[them], s));
    }
    assert forall|s: u64| s < 64 implies !(bit(q.bb[0], s) && bit(q.bb[1], s)) by {
        assert(bit(q.bb[us], s) <==> s == to || (bit(p.bb[us], s) && s != from));
        assert(bit(q.bb[them], s) <==> bit(p.bb[them], s) && s != v);
        assert(bit(occ, s) <==> bit(p.bb[0], s) || bit(p.bb[1], s));
    }
    assert forall|s: u64, i: int| s < 64 && 2 <= i < 8 implies (#[trigger] bit(q.bb[i], s)
        <==> if s == to {
        i == 2
    } else {
        bit(p.bb[i], s) && s != from && s != v
    }) by {
        assert(bit(q.bb[2], s) <==> s == to || (bit(p.bb[2], s) && s != from && s != v));
        if i != 2 {
            assert(bit(q.bb[i], s) <==> bit(p.bb[i], s));
        }
        assert(bit(occ, s) <==> bit(p.bb[0], s) || bit(p.bb[1], s));
    }
    assert forall|s: u64, i: int, j: int| s < 64 && 2 <= i < j < 8 implies !(bit(q.bb[i], s)
        && bit(q.bb[j], s)) by {}
    assert forall|s: u64| s < 64 implies (bit(q.bb[0], s) || bit(q.bb[1], s) <==> bit(
        q.bb[2],
        s,
    ) || bit(q.bb[3], s) || bit(q.bb[4], s) || bit(q.bb[5], s) || bit(q.bb[6], s) || bit(
        q.bb[7],
        s,
    )) by {
        assert(bit(q.bb[us], s) <==> s == to || (bit(p.bb[us], s) && s != from));
        assert(bit(q.bb[them], s) <==> bit(p.bb[them], s) && s != v);
        assert(bit(occ, s) <==> bit(p.bb[0], s) || bit(p.bb[1], s));
        assert(bit(q.bb[2], to));
    }
    if us == 0 {
        lemma_board_from_squares(q, k, e);
    } else {
        lemma_board_from_squares(q, e, k);
    }
    assert(24 <= v < 40);
    assert forall|s: u64, i: int|
        s < 64 && s != m.from && s != m.to && 0 <= i < 8 && bit(p.bb[i], s) && (s < 8 && m.from
            != 4 || s >= 56 && m.from != 60) implies bit(q.bb[i], s) by {
        if i >= 2 {
        } else if i == us {
            assert(bit(q.bb[us], s) <==> s == to || (bit(p.bb[us], s) && s != from));
        } else {
            assert(bit(q.bb[them], s) <==> bit(p.bb[them], s) && s != v);
        }
    }
    lemma_rights_kept(p, q, m);
}

/// A legal move leads from a position that can have come about in play to
/// another such position: the masks still describe one board with one king
/// for each side, the castling rights and the en-passant square still fit
/// the board, and the side that has moved has not left its king attacked.
pub proof fn lemma_legal_move_keeps_playable(p: Position, m: Move)
    requires
        p.playable(),
        p.legal(m),
    ensures
        p.after(m).playable(),
{
    lemma_king_flags(p, m);
    if m.flag == Flag::KS || m.flag == Flag::QS {
        lemma_castle_keeps_wf(p, m);
        lemma_after_castle(p, m);
    } else if m.flag == Flag::ENP {
        lemma_ep_keeps_wf(p, m);
        lemma_after_ep(p, m);
    } else {
        lemma_plain_keeps_wf(p, m);
        lemma_pseudo_plain(p, m);
        lemma_after_plain(p, m);
    }
}

/// Flipping the same squares of the same piece twice changes nothing: the
/// second toggle takes back the first.
pub proof fn lemma_toggle_twice(p: Position, side: int, piece: int, mask: u64)
    requires
        0 <= side < 8,
        0 <= piece < 8,
    ensures
        p.toggled(side, piece, mask).toggled(side, piece, mask) == p,
{
    lemma_xor_twice();
    let q = p.toggled(side, piece, mask).toggled(side, piece, mask);
    assert(q.bb =~= p.bb);
}

proof fn lemma_xor_twice()
    by (bit_vector)
    ensures
        forall|a: u64, b: u64| #[trigger] ((a ^ b) ^ b) == a,
{
}

} // verus!
