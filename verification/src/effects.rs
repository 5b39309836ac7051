//! What the special moves do to the board, square by square.

use vstd::prelude::*;
use crate::bits::bit;
use crate::bits::lemma_bit_ext;
use crate::bits::lemma_bit_ops;
use crate::bits::lemma_bit_witness;
use crate::bits::lemma_byte_ops;
use crate::bits::only;
use crate::consts::Flag;
use crate::consts::Path;
use crate::consts::Piece;
use crate::consts::ROOK_MOVES;
use crate::position::Man;
use crate::position::Move;
use crate::position::Position;
use crate::rules::lemma_board_pointwise;
use crate::rules::lemma_has_king;
use crate::rules::lemma_kind_at;
use crate::rules::lemma_king_flags;

verus! {

/// The kind of the piece that stands on the target square after a plain
/// move: the piece that moved, or the piece that a pawn was promoted to.
pub open spec fn landed(m: Move) -> int {
    if m.flag >= Flag::NPR {
        (m.flag & 3) + 3
    } else {
        m.moved as int
    }
}

/// `q` has the board of `p` but for one piece: what stood on `from` stands
/// on `to` as a piece of `kind`, and what stood on `to` is gone.
pub open spec fn moved_to(p: Position, q: Position, from: u64, to: u64, kind: int) -> bool {
    let us = p.us();
    &&& forall|s: u64|
        s < 64 ==> (#[trigger] bit(q.bb[us], s) <==> s == to || (bit(p.bb[us], s) && s != from))
    &&& forall|s: u64|
        s < 64 ==> (#[trigger] bit(q.bb[1 - us], s) <==> bit(p.bb[1 - us], s) && s != to)
    &&& forall|s: u64, i: int|
        s < 64 && 2 <= i < 8 ==> (#[trigger] bit(q.bb[i], s) <==> if s == to {
            i == kind
        } else {
            bit(p.bb[i], s) && s != from
        })
}

/// The move takes a piece of the side to move from one square to another
/// that is empty, or held by the enemy where the flag says capture, and
/// does nothing else but promote a pawn.
pub open spec fn plain(p: Position, m: Move) -> bool {
    let from = m.from as u64;
    let to = m.to as u64;
    &&& from < 64
    &&& to < 64
    &&& from != to
    &&& 2 <= m.moved <= 7
    &&& bit(p.bb[p.us()], from)
    &&& bit(p.bb[m.moved as int], from)
    &&& m.flag < 16
    &&& m.flag != Flag::KS
    &&& m.flag != Flag::QS
    &&& m.flag != Flag::ENP
    &&& m.flag >= Flag::NPR ==> m.moved == Piece::PAWN
    &&& if m.flag & Flag::CAP == 0 {
        !bit(p.occupied(), to)
    } else {
        bit(p.bb[1 - p.us()], to)
    }
}

/// A move that follows the rules and is neither castling nor a capture in
/// passing is plain.
pub proof fn lemma_pseudo_plain(p: Position, m: Move)
    requires
        p.board_wf(),
        p.pseudo(m),
        m.flag != Flag::KS,
        m.flag != Flag::QS,
        m.flag != Flag::ENP,
    ensures
        plain(p, m),
{
    lemma_byte_ops();
    lemma_board_pointwise(p);
    let from = m.from as u64;
    let to = m.to as u64;
    assert(bit(p.occupied(), from));
    assert(!bit(p.bb[1 - p.us()], from));
}

/// What a plain move does to the board.
pub proof fn lemma_after_plain(p: Position, m: Move)
    requires
        p.board_wf(),
        plain(p, m),
    ensures
        moved_to(p, p.after(m), m.from as u64, m.to as u64, landed(m)),
        p.after(m).stm == !p.stm,
{
    let q = p.after(m);
    let us = p.us();
    let from = m.from as u64;
    let to = m.to as u64;
    lemma_byte_ops();
    lemma_bit_ops();
    lemma_board_pointwise(p);
    lemma_kind_at(p, to);
    assert(bit(p.occupied(), from));
    assert(!bit(p.bb[1 - us], from));
    let captured = if m.flag & Flag::CAP == 0 {
        0
    } else {
        p.kind_at(only(to))
    };
    assert forall|s: u64| s < 64 implies (#[trigger] bit(q.bb[us], s) <==> s == to || (bit(
        p.bb[us],
        s,
    ) && s != from)) by {
        assert(q.bb[us] == p.bb[us] ^ (only(from) ^ only(to)));
    }
    assert forall|s: u64| s < 64 implies (#[trigger] bit(q.bb[1 - us], s) <==> bit(
        p.bb[1 - us],
        s,
    ) && s != to) by {
        if captured != 0 {
            assert(q.bb[1 - us] == p.bb[1 - us] ^ only(to));
        } else {
            assert(q.bb[1 - us] == p.bb[1 - us]);
        }
    }
    assert forall|s: u64, i: int| s < 64 && 2 <= i < 8 implies (#[trigger] bit(q.bb[i], s)
        <==> if s == to {
        i == landed(m)
    } else {
        bit(p.bb[i], s) && s != from
    }) by {
        lemma_after_plain_kind(p, m, i);
        lemma_bit_ops();
    }
}

/// The mask of one kind after a plain move.
proof fn lemma_after_plain_kind(p: Position, m: Move, i: int)
    requires
        p.board_wf(),
        plain(p, m),
        2 <= i < 8,
    ensures
        ({
            let to = only(m.to as u64);
            let captured = if m.flag & Flag::CAP == 0 {
                0
            } else {
                p.kind_at(to) as int
            };
            let a = if i == m.moved {
                only(m.from as u64) ^ to
            } else {
                0
            };
            let b = if i == captured {
                to
            } else {
                0
            };
            let c = if m.flag >= Flag::NPR && (i == 2 || i == landed(m)) {
                to
            } else {
                0
            };
            p.after(m).bb[i] == ((p.bb[i] ^ a) ^ b) ^ c
        }),
{
    lemma_byte_ops();
    lemma_kind_at(p, m.to as u64);
    lemma_xor_nothing();
}

proof fn lemma_xor_nothing()
    by (bit_vector)
    ensures
        forall|a: u64| #[trigger] (a ^ 0) == a,
{
}

/// `q` has the board of `p` after a capture in passing from `from` to `to`
/// that took the pawn on `victim`.
pub open spec fn took_in_passing(
    p: Position,
    q: Position,
    from: u64,
    to: u64,
    victim: u64,
) -> bool {
    let us = p.us();
    &&& forall|s: u64|
        s < 64 ==> (#[trigger] bit(q.bb[us], s) <==> s == to || (bit(p.bb[us], s) && s != from))
    &&& forall|s: u64|
        s < 64 ==> (#[trigger] bit(q.bb[1 - us], s) <==> bit(p.bb[1 - us], s) && s != victim)
    &&& forall|s: u64|
        s < 64 ==> (#[trigger] bit(q.bb[2], s) <==> s == to || (bit(p.bb[2], s) && s != from && s
            != victim))
    &&& forall|s: u64, i: int|
        s < 64 && 3 <= i < 8 ==> (#[trigger] bit(q.bb[i], s) <==> bit(p.bb[i], s))
}

/// `q` has the board of `p` after castling: the king went from `king` to
/// `to` and the rook from `corner` to `next`.
pub open spec fn castled(
    p: Position,
    q: Position,
    king: u64,
    to: u64,
    corner: u64,
    next: u64,
) -> bool {
    let us = p.us();
    &&& forall|s: u64|
        s < 64 ==> (#[trigger] bit(q.bb[us], s) <==> s == to || s == next || (bit(p.bb[us], s)
            && s != king && s != corner))
    &&& forall|s: u64| s < 64 ==> (#[trigger] bit(q.bb[1 - us], s) <==> bit(p.bb[1 - us], s))
    &&& forall|s: u64|
        s < 64 ==> (#[trigger] bit(q.bb[7], s) <==> s == to || (bit(p.bb[7], s) && s != king))
    &&& forall|s: u64|
        s < 64 ==> (#[trigger] bit(q.bb[5], s) <==> s == next || (bit(p.bb[5], s) && s != corner))
    &&& forall|s: u64, i: int|
        s < 64 && 2 <= i < 8 && i != 5 && i != 7 ==> (#[trigger] bit(q.bb[i], s) <==> bit(
            p.bb[i],
            s,
        ))
}

/// What a capture in passing does to the board.
pub proof fn lemma_after_ep(p: Position, m: Move)
    requires
        p.wf(),
        p.pseudo(m),
        m.flag == Flag::ENP,
    ensures
        m.moved == Piece::PAWN,
        (m.to ^ 8) < 64,
        took_in_passing(p, p.after(m), m.from as u64, m.to as u64, (m.to ^ 8) as u64),
        p.after(m).stm == !p.stm,
{
    let q = p.after(m);
    let us = p.us();
    let from = m.from as u64;
    let to = m.to as u64;
    lemma_byte_ops();
    lemma_bit_ops();
    lemma_board_pointwise(p);
    lemma_kind_at(p, to);
    let v = (m.to ^ 8) as u64;
    assert(p.kind_at(only(to)) == 0);
    assert(q.bb[us] == p.bb[us] ^ (only(from) ^ only(to)));
    assert(q.bb[1 - us] == p.bb[1 - us] ^ only(v));
    assert(q.bb[2] == (p.bb[2] ^ (only(from) ^ only(to))) ^ only(v));
    assert(bit(p.occupied(), from));
    assert(bit(p.occupied(), v));
    assert forall|s: u64, i: int| s < 64 && 3 <= i < 8 implies (#[trigger] bit(q.bb[i], s) <==> bit(
        p.bb[i],
        s,
    )) by {
        assert(q.bb[i] == p.bb[i]);
    }
}

/// What castling does to the board.
pub proof fn lemma_after_castle(p: Position, m: Move)
    requires
        p.wf(),
        p.pseudo(m),
        m.flag == Flag::KS || m.flag == Flag::QS,
    ensures
        m.moved == Piece::KING,
        ({
            let home: u64 = if p.stm {
                60
            } else {
                4
            };
            if m.flag == Flag::KS {
                castled(
                    p,
                    p.after(m),
                    home,
                    (home + 2) as u64,
                    (home + 3) as u64,
                    (home + 1) as u64,
                )
            } else {
                castled(
                    p,
                    p.after(m),
                    home,
                    (home - 2) as u64,
                    (home - 4) as u64,
                    (home - 1) as u64,
                )
            }
        }),
        p.after(m).stm == !p.stm,
{
    let q = p.after(m);
    let us = p.us();
    let from = m.from as u64;
    let to = m.to as u64;
    lemma_byte_ops();
    lemma_bit_ops();
    lemma_board_pointwise(p);
    lemma_castle_consts();
    assert(m.moved == Piece::KING);
    let rook = if m.flag == Flag::KS {
        ROOK_MOVES[1][us]
    } else {
        ROOK_MOVES[0][us]
    };
    assert(q.bb[us] == (p.bb[us] ^ (only(from) ^ only(to))) ^ rook);
    assert(q.bb[1 - us] == p.bb[1 - us]);
    assert(q.bb[7] == p.bb[7] ^ (only(from) ^ only(to)));
    assert(q.bb[5] == p.bb[5] ^ rook);
    assert forall|s: u64, i: int| s < 64 && 2 <= i < 8 && i != 5 && i != 7 implies (#[trigger] bit(
        q.bb[i],
        s,
    ) <==> bit(p.bb[i], s)) by {
        assert(q.bb[i] == p.bb[i]);
    }
    let occ = p.occupied();
    let path = if m.flag == Flag::KS {
        Path::TABLE[us][1]
    } else {
        Path::TABLE[us][0]
    };
    assert(occ & path == 0);
    assert forall|s: u64| bit(path, s) implies !bit(occ, s) by {
        assert(bit(occ & path, s) <==> bit(occ, s) && bit(path, s));
    }
    let home: u64 = if p.stm {
        60
    } else {
        4
    };
    let corner = if m.flag == Flag::KS {
        (home + 3) as u64
    } else {
        (home - 4) as u64
    };
    let next = if m.flag == Flag::KS {
        (home + 1) as u64
    } else {
        (home - 1) as u64
    };
    assert(from == home);
    assert(forall|s: u64| bit(rook, s) <==> s == corner || s == next);
    assert(bit(path, to) && bit(path, next));
    assert(!bit(occ, to) && !bit(occ, next));
    assert(p.can_still_castle(us, home, corner));
    assert(bit(p.bb[us], home) && bit(p.bb[us], corner));
    assert(bit(p.bb[7], home) && bit(p.bb[5], corner));
    assert(!bit(p.bb[us], to) && !bit(p.bb[us], next));
    assert(!bit(p.bb[7], to) && !bit(p.bb[5], next));
    assert forall|s: u64| s < 64 implies (#[trigger] bit(q.bb[us], s) <==> s == to || s == next
        || (bit(p.bb[us], s) && s != home && s != corner)) by {
        assert(bit(rook, s) <==> s == corner || s == next);
    }
    assert forall|s: u64| s < 64 implies (#[trigger] bit(q.bb[5], s) <==> s == next || (bit(
        p.bb[5],
        s,
    ) && s != corner)) by {
        assert(bit(rook, s) <==> s == corner || s == next);
    }
    assert forall|s: u64| s < 64 implies (#[trigger] bit(q.bb[7], s) <==> s == to || (bit(
        p.bb[7],
        s,
    ) && s != home)) by {}
}

/// The squares in the tables for castling.
pub proof fn lemma_castle_consts()
    by (bit_vector)
    ensures
        forall|s: u64| #[trigger] bit(0xA0, s) <==> s == 5 || s == 7,
        forall|s: u64| #[trigger] bit(0x09, s) <==> s == 0 || s == 3,
        forall|s: u64| #[trigger] bit(0xA000_0000_0000_0000, s) <==> s == 61 || s == 63,
        forall|s: u64| #[trigger] bit(0x0900_0000_0000_0000, s) <==> s == 56 || s == 59,
        forall|s: u64| #[trigger] bit(0x60, s) <==> s == 5 || s == 6,
        forall|s: u64| #[trigger] bit(0x0E, s) <==> s == 1 || s == 2 || s == 3,
        forall|s: u64| #[trigger] bit(0x6000_0000_0000_0000, s) <==> s == 61 || s == 62,
        forall|s: u64| #[trigger] bit(0x0E00_0000_0000_0000, s) <==> s == 57 || s == 58 || s == 59,
{
}

/// A capture in passing leaves the mover's king where it is.
pub proof fn lemma_ep_king(p: Position, m: Move)
    requires
        p.wf(),
        p.pseudo(m),
        m.flag == Flag::ENP,
    ensures
        p.after(m).king_sq(p.us()) == p.king_sq(p.us()),
        p.king_sq(p.us()) < 64,
{
    let us = p.us();
    let q = p.after(m);
    let k = p.king_sq(us);
    lemma_after_ep(p, m);
    lemma_has_king(p, us);
    lemma_board_pointwise(p);
    lemma_bit_ops();
    assert forall|s: u64| s < 64 implies (bit(q.bb[7], s) && bit(q.bb[us], s) <==> s == k) by {
        assert(bit(q.bb[7], s) <==> bit(p.bb[7], s));
        assert(bit(p.bb[7] & p.bb[us], s) <==> bit(p.bb[7], s) && bit(p.bb[us], s));
        assert(bit(p.occupied(), s) <==> bit(p.bb[0], s) || bit(p.bb[1], s));
    }
    lemma_king_sq_is(q, us, k);
}

/// The king's square is the one square that the king's mask and the side's
/// mask share.
pub proof fn lemma_king_sq_is(q: Position, side: int, k: u64)
    requires
        side == 0 || side == 1,
        k < 64,
        forall|s: u64| s < 64 ==> (bit(q.bb[7], s) && bit(q.bb[side], s) <==> s == k),
    ensures
        q.bb[7] & q.bb[side] == only(k),
        q.king_sq(side) == k,
{
    lemma_bit_ops();
    let kings = q.bb[7] & q.bb[side];
    assert forall|i: u64| i < 64 implies (bit(kings, i) <==> bit(only(k), i)) by {
        assert(bit(kings, i) <==> bit(q.bb[7], i) && bit(q.bb[side], i));
    }
    lemma_bit_ext(kings, only(k));
    assert(bit(kings, k));
    let i = lemma_bit_witness(kings);
}

/// The board after a move by `us`: castling moves king and rook, a capture
/// in passing moves the pawn and empties the square behind the one it
/// reaches, any other move empties the square left and puts the piece, or
/// the piece that a pawn is promoted to, on the square reached.
pub open spec fn board_after(b: Seq<Option<Man>>, us: int, m: Move) -> Seq<Option<Man>> {
    let from = m.from as int;
    let to = m.to as int;
    let king = Some(Man { side: us, kind: 7 });
    let rook = Some(Man { side: us, kind: 5 });
    if m.flag == Flag::KS {
        b.update(from, None).update(from + 3, None).update(to, king).update(from + 1, rook)
    } else if m.flag == Flag::QS {
        b.update(from, None).update(from - 4, None).update(to, king).update(from - 1, rook)
    } else if m.flag == Flag::ENP {
        b.update(from, None).update((m.to ^ 8) as int, None).update(
            to,
            Some(Man { side: us, kind: 2 }),
        )
    } else {
        b.update(from, None).update(to, Some(Man { side: us, kind: landed(m) }))
    }
}

/// A square holds the piece that its masks name.
proof fn lemma_man_at(q: Position, s: u64, side: int, kind: int)
    requires
        s < 64,
        0 <= side <= 1,
        2 <= kind < 8,
        bit(q.bb[side], s),
        !bit(q.bb[1 - side], s),
        forall|i: int| 2 <= i < 8 ==> (bit(q.bb[i], s) <==> i == kind),
    ensures
        q.man_at(s) == Some(Man { side, kind }),
{
    lemma_bit_ops();
    assert(bit(q.occupied(), s) <==> bit(q.bb[0], s) || bit(q.bb[1], s));
    assert(forall|i: int| 2 <= i < 8 ==> (q.bb[i] & only(s) != 0 <==> bit(q.bb[i], s)));
}

/// A square that no side holds is empty.
proof fn lemma_no_man_at(q: Position, s: u64)
    requires
        s < 64,
        !bit(q.bb[0], s),
        !bit(q.bb[1], s),
    ensures
        q.man_at(s) == None::<Man>,
{
    lemma_bit_ops();
    assert(bit(q.occupied(), s) <==> bit(q.bb[0], s) || bit(q.bb[1], s));
}

/// A square whose masks are the same in two positions holds the same in
/// both.
proof fn lemma_same_man(p: Position, q: Position, s: u64)
    requires
        s < 64,
        forall|i: int| 0 <= i < 8 ==> (bit(q.bb[i], s) <==> bit(p.bb[i], s)),
    ensures
        q.man_at(s) == p.man_at(s),
{
    lemma_bit_ops();
    assert(bit(q.occupied(), s) <==> bit(q.bb[0], s) || bit(q.bb[1], s));
    assert(bit(p.occupied(), s) <==> bit(p.bb[0], s) || bit(p.bb[1], s));
    assert(forall|i: int| 2 <= i < 8 ==> (q.bb[i] & only(s) != 0 <==> bit(q.bb[i], s)));
    assert(forall|i: int| 2 <= i < 8 ==> (p.bb[i] & only(s) != 0 <==> bit(p.bb[i], s)));
}

/// What stands on a square after castling.
proof fn lemma_castle_square(p: Position, m: Move, s: u64)
    requires
        p.wf(),
        p.pseudo(m),
        m.flag == Flag::KS || m.flag == Flag::QS,
        s < 64,
    ensures
        p.after(m).man_at(s) == board_after(p@, p.us(), m)[s as int],
{
    let q = p.after(m);
    let us = p.us();
    let to = m.to as u64;
    let home: u64 = if p.stm {
        60
    } else {
        4
    };
    let corner = if m.flag == Flag::KS {
        (home + 3) as u64
    } else {
        (home - 4) as u64
    };
    let next = if m.flag == Flag::KS {
        (home + 1) as u64
    } else {
        (home - 1) as u64
    };
    lemma_after_castle(p, m);
    lemma_board_pointwise(p);
    lemma_castle_consts();
    assert(castled(p, q, home, to, corner, next));
    assert(p.castle_pseudo(m));
    let occ = p.occupied();
    let path = if m.flag == Flag::KS {
        Path::TABLE[us][1]
    } else {
        Path::TABLE[us][0]
    };
    assert(!bit(occ, to) && !bit(occ, next)) by {
        lemma_bit_ops();
        assert(bit(occ & path, to) <==> bit(occ, to) && bit(path, to));
        assert(bit(occ & path, next) <==> bit(occ, next) && bit(path, next));
    }
    assert(p.can_still_castle(us, home, corner));
    assert(bit(q.bb[us], s) <==> s == to || s == next || (bit(p.bb[us], s) && s != home && s
        != corner));
    assert(bit(q.bb[1 - us], s) <==> bit(p.bb[1 - us], s));
    assert(bit(q.bb[7], s) <==> s == to || (bit(p.bb[7], s) && s != home));
    assert(bit(q.bb[5], s) <==> s == next || (bit(p.bb[5], s) && s != corner));
    assert forall|k: int| 2 <= k < 8 && k != 5 && k != 7 implies (bit(q.bb[k], s) <==> bit(
        p.bb[k],
        s,
    )) by {}
    if s == to {
        lemma_man_at(q, s, us, 7);
    } else if s == next {
        lemma_man_at(q, s, us, 5);
    } else if s == home || s == corner {
        lemma_no_man_at(q, s);
    } else {
        lemma_same_man(p, q, s);
    }
}

/// What stands on a square after a capture in passing.
proof fn lemma_ep_square(p: Position, m: Move, s: u64)
    requires
        p.wf(),
        p.pseudo(m),
        m.flag == Flag::ENP,
        s < 64,
    ensures
        p.after(m).man_at(s) == board_after(p@, p.us(), m)[s as int],
{
    let q = p.after(m);
    let us = p.us();
    let from = m.from as u64;
    let to = m.to as u64;
    let v = (m.to ^ 8) as u64;
    lemma_after_ep(p, m);
    lemma_board_pointwise(p);
    lemma_byte_ops();
    assert(took_in_passing(p, q, from, to, v));
    assert(bit(q.bb[us], s) <==> s == to || (bit(p.bb[us], s) && s != from));
    assert(bit(q.bb[1 - us], s) <==> bit(p.bb[1 - us], s) && s != v);
    assert(bit(q.bb[2], s) <==> s == to || (bit(p.bb[2], s) && s != from && s != v));
    assert forall|k: int| 3 <= k < 8 implies (bit(q.bb[k], s) <==> bit(p.bb[k], s)) by {}
    assert(!bit(p.occupied(), to));
    if s == to {
        lemma_man_at(q, s, us, 2);
    } else if s == from || s == v {
        lemma_no_man_at(q, s);
    } else {
        lemma_same_man(p, q, s);
    }
}

/// What stands on a square after a plain move.
proof fn lemma_plain_square(p: Position, m: Move, s: u64)
    requires
        p.wf(),
        p.pseudo(m),
        m.flag != Flag::KS,
        m.flag != Flag::QS,
        m.flag != Flag::ENP,
        s < 64,
    ensures
        p.after(m).man_at(s) == board_after(p@, p.us(), m)[s as int],
{
    let q = p.after(m);
    let us = p.us();
    let from = m.from as u64;
    let to = m.to as u64;
    let kind = landed(m);
    lemma_pseudo_plain(p, m);
    lemma_after_plain(p, m);
    lemma_board_pointwise(p);
    lemma_byte_ops();
    assert(moved_to(p, q, from, to, kind));
    assert(bit(q.bb[us], s) <==> s == to || (bit(p.bb[us], s) && s != from));
    assert(bit(q.bb[1 - us], s) <==> bit(p.bb[1 - us], s) && s != to);
    assert forall|k: int| 2 <= k < 8 implies (bit(q.bb[k], s) <==> if s == to {
        k == kind
    } else {
        bit(p.bb[k], s) && s != from
    }) by {}
    if s == to {
        lemma_man_at(q, s, us, kind);
    } else if s == from {
        lemma_no_man_at(q, s);
    } else {
        lemma_same_man(p, q, s);
    }
}

/// On a sound position `make` plays a move that follows the rules on the
/// board.
pub proof fn lemma_make_on_board(p: Position, m: Move)
    requires
        p.wf(),
        p.pseudo(m),
    ensures
        p.after(m)@ == board_after(p@, p.us(), m),
{
    let q = p.after(m);
    let want = board_after(p@, p.us(), m);
    lemma_byte_ops();
    lemma_king_flags(p, m);
    assert(q@.len() == want.len());
    assert forall|i: int| 0 <= i < 64 implies q@[i] == want[i] by {
        if m.flag == Flag::KS || m.flag == Flag::QS {
            lemma_castle_square(p, m, i as u64);
        } else if m.flag == Flag::ENP {
            lemma_ep_square(p, m, i as u64);
        } else {
            lemma_plain_square(p, m, i as u64);
        }
    }
    assert(q@ =~= want);
}

} // verus!
