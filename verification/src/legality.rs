//! Why the generator is right: the moves it goes by are the legal moves.

use vstd::prelude::*;
use crate::bits::bit;
use crate::bits::lemma_bit_ops;
use crate::bits::lemma_byte_ops;
use crate::bits::only;
use crate::consts::Flag;
use crate::consts::Piece;
use crate::effects::castled;
use crate::effects::landed;
use crate::effects::lemma_after_castle;
use crate::effects::lemma_after_ep;
use crate::effects::lemma_after_plain;
use crate::effects::lemma_ep_king;
use crate::effects::lemma_king_sq_is;
use crate::effects::lemma_pseudo_plain;
use crate::effects::moved_to;
use crate::effects::plain;
use crate::effects::took_in_passing;
use crate::geometry::between;
use crate::geometry::between_mask;
use crate::geometry::clear;
use crate::geometry::collinear;
use crate::geometry::king_step;
use crate::geometry::knight_step;
use crate::geometry::lemma_line_masks;
use crate::geometry::lemma_steps_gap;
use crate::geometry::pawn_attack;
use crate::position::Move;
use crate::position::Position;
use crate::rules::lemma_board_pointwise;
use crate::rules::lemma_has_king;

verus! {

/// Order along a line. With `f` between `k` and `s`: a square `t` on the
/// line through `k` and `f` lies between `k` and `s`, or is one of the
/// three, or has `k` or `s` between `f` and itself; squares between `k` and
/// `s` lie on the line through `k` and `f`. A knight's jump leaves every
/// line through its first square. Two squares that hide `k` from the same
/// square `t` lie on one line with `k`, one behind the other.
pub proof fn lemma_line_order(k: u64, s: u64, f: u64, t: u64)
    by (bit_vector)
    requires
        k < 64,
        s < 64,
        f < 64,
        t < 64,
    ensures
        between(k, s, f) && collinear(k, f, t) && t != k && t != s && t != f && !between(k, s, t)
            ==> between(f, t, k) || between(f, t, s),
        between(k, s, f) && between(k, s, t) ==> collinear(k, f, t),
        between(k, s, f) ==> collinear(k, f, s) && k != f && s != f && k != s,
        knight_step(f, t) ==> !collinear(k, f, t),
        knight_step(t, k) ==> !between(k, s, t),
        between(k, s, t) && between(k, f, t) ==> s == f || between(k, s, f) || between(k, f, s),
        between(k, s, t) <==> between(s, k, t),
        king_step(f, t) ==> !between(f, t, k),
        f + 16 == t && between(f, t, k) ==> k == f + 8,
        t + 16 == f && between(f, t, k) ==> k == t + 8,
        pawn_attack(1, s, k) && t == s + 8 ==> knight_step(t, k),
        pawn_attack(0, s, k) && t + 8 == s ==> knight_step(t, k),
{
}

/// Sight after a piece has gone from `from` to `to`: the way from `s` to
/// `k` is clear exactly when `to` does not lie on it and no piece but the
/// one that left stood on it.
pub proof fn lemma_sight(occ: u64, occ2: u64, from: u64, to: u64, s: u64, k: u64)
    requires
        forall|x: u64| x < 64 ==> (bit(occ2, x) <==> x == to || (bit(occ, x) && x != from)),
        s < 64,
        k < 64,
        to < 64,
    ensures
        clear(occ2, s, k) <==> !between(s, k, to) && forall|x: u64| #[trigger]
            between(s, k, x) && bit(occ, x) ==> x == from,
{
    if clear(occ2, s, k) {
        assert forall|x: u64| #[trigger] between(s, k, x) && bit(occ, x) implies x == from by {
            assert(!bit(occ2, x));
        }
    }
    if !between(s, k, to) && forall|x: u64| #[trigger]
        between(s, k, x) && bit(occ, x) ==> x == from {
        assert forall|x: u64| #[trigger] between(s, k, x) implies !bit(occ2, x) by {}
    }
}

/// One piece alone stands between two squares, in the words of the mask
/// and in those of the squares.
pub proof fn lemma_sole(occ: u64, k: u64, s: u64, x: u64)
    requires
        k < 64,
        s < 64,
        x < 64,
    ensures
        occ & between_mask(k, s) == only(x) <==> between(k, s, x) && bit(occ, x) && forall|y: u64|
         #[trigger]
            between(k, s, y) && bit(occ, y) ==> y == x,
{
    lemma_bit_ops();
    let z = occ & between_mask(k, s);
    lemma_line_masks(k, s, x);
    if z == only(x) {
        assert(bit(z, x));
        assert forall|y: u64| #[trigger] between(k, s, y) && bit(occ, y) implies y == x by {
            lemma_line_masks(k, s, y);
            assert(bit(z, y));
        }
    }
    if between(k, s, x) && bit(occ, x) && forall|y: u64| #[trigger]
        between(k, s, y) && bit(occ, y) ==> y == x {
        assert forall|i: u64| i < 64 implies (bit(z, i) <==> bit(only(x), i)) by {
            lemma_line_masks(k, s, i);
            assert(bit(z, i) <==> bit(occ, i) && bit(between_mask(k, s), i));
        }
        crate::bits::lemma_bit_ext(z, only(x));
    }
}

/// Whether a piece attacks a square depends on the masks at the piece's
/// own square and on the occupancy alone.
pub proof fn lemma_attacks_local(p: Position, q: Position, s: u64, t: u64, side: int, occ: u64)
    requires
        0 <= side <= 1,
        forall|i: int| 0 <= i < 8 ==> (bit(q.bb[i], s) <==> bit(p.bb[i], s)),
    ensures
        q.attacks(s, t, side, occ) <==> p.attacks(s, t, side, occ),
{
    lemma_bit_ops();
}

/// Two occupancies that agree between two squares give the same sight from
/// one to the other.
pub proof fn lemma_clear_agree(o1: u64, o2: u64, a: u64, b: u64)
    requires
        forall|x: u64| #[trigger] between(a, b, x) ==> (bit(o1, x) <==> bit(o2, x)),
    ensures
        clear(o1, a, b) <==> clear(o2, a, b),
{
}

/// The occupied squares after a plain move.
pub proof fn lemma_occupied_after(p: Position, q: Position, from: u64, to: u64, kind: int)
    requires
        p.board_wf(),
        moved_to(p, q, from, to, kind),
        from < 64,
        to < 64,
        bit(p.bb[p.us()], from),
    ensures
        forall|x: u64|
            x < 64 ==> (bit(q.occupied(), x) <==> x == to || (bit(p.occupied(), x) && x != from)),
{
    lemma_bit_ops();
    lemma_board_pointwise(p);
    let us = p.us();
    assert forall|x: u64| x < 64 implies (bit(q.occupied(), x) <==> x == to || (bit(
        p.occupied(),
        x,
    ) && x != from)) by {
        assert(bit(q.occupied(), x) <==> bit(q.bb[0], x) || bit(q.bb[1], x));
        assert(bit(p.occupied(), x) <==> bit(p.bb[0], x) || bit(p.bb[1], x));
        assert(bit(q.bb[us], x) <==> x == to || (bit(p.bb[us], x) && x != from));
        assert(bit(q.bb[1 - us], x) <==> bit(p.bb[1 - us], x) && x != to);
    }
}

/// After a plain move a piece attacks a square exactly when it is not the
/// piece that was taken and attacked the square before, the occupancy
/// being the same.
pub proof fn lemma_attacks_after(
    p: Position,
    q: Position,
    from: u64,
    to: u64,
    kind: int,
    s: u64,
    t: u64,
    occ: u64,
)
    requires
        p.board_wf(),
        moved_to(p, q, from, to, kind),
        from < 64,
        to < 64,
        bit(p.bb[p.us()], from),
    ensures
        q.attacks(s, t, p.us(), occ) <==> s != to && p.attacks(s, t, p.us(), occ),
{
    lemma_bit_ops();
    lemma_board_pointwise(p);
    let us = p.us();
    if s < 64 {
        assert(bit(q.bb[1 - us], s) <==> bit(p.bb[1 - us], s) && s != to);
        if s != to && s != from {
            assert forall|i: int| 0 <= i < 8 implies (bit(q.bb[i], s) <==> bit(p.bb[i], s)) by {
                if i >= 2 {
                    assert(bit(q.bb[i], s) <==> bit(p.bb[i], s) && s != from);
                } else if i == us {
                    assert(bit(q.bb[us], s) <==> s == to || (bit(p.bb[us], s) && s != from));
                }
            }
            lemma_attacks_local(p, q, s, t, us, occ);
        }
    }
}

/// A step of the king is legal exactly when the square it leads to is not
/// attacked once the king has left its own.
pub proof fn lemma_king_step(p: Position, m: Move)
    requires
        p.wf(),
        p.pseudo(m),
        m.moved == Piece::KING,
        m.flag == Flag::QUIET || m.flag == Flag::CAP,
        ensures
        p.king_safe(m) <==> !p.after(m).in_check(p.us()),
        p.after(m).king_sq(p.us()) == m.to,
{
    let us = p.us();
    let k = p.king_sq(us);
    let from = m.from as u64;
    let to = m.to as u64;
    let q = p.after(m);
    let occ = p.occupied();
    let occ2 = q.occupied();
    let nok = occ ^ only(k);
    lemma_has_king(p, us);
    lemma_bit_ops();
    lemma_board_pointwise(p);
    lemma_pseudo_plain(p, m);
    lemma_after_plain(p, m);
    lemma_byte_ops();
    assert(bit(p.bb[7] & p.bb[us], from));
    assert(from == k);
    assert(landed(m) == 7);
    lemma_occupied_after(p, q, from, to, 7);
    assert forall|s: u64| s < 64 implies (bit(q.bb[7], s) && bit(q.bb[us], s) <==> s == to) by {
        assert(bit(q.bb[us], s) <==> s == to || (bit(p.bb[us], s) && s != from));
        assert(bit(q.bb[7], s) <==> if s == to {
            true
        } else {
            bit(p.bb[7], s) && s != from
        });
        assert(bit(p.bb[7] & p.bb[us], s) <==> bit(p.bb[7], s) && bit(p.bb[us], s));
    }
    lemma_king_sq_is(q, us, to);
    assert forall|s: u64| q.attacks(s, to, us, occ2) <==> p.attacks(s, to, us, nok) by {
        lemma_attacks_after(p, q, from, to, 7, s, to, occ2);
        assert forall|x: u64| #[trigger] between(s, to, x) implies (bit(occ2, x) <==> bit(
            nok,
            x,
        )) by {
            assert(bit(nok, x) <==> (bit(occ, x) != bit(only(k), x)));
        }
        lemma_clear_agree(occ2, nok, s, to);
    }
    if q.in_check(us) {
        let s = choose|s: u64| q.attacks(s, q.king_sq(us), us, occ2);
        assert(p.attacks(s, to, us, nok));
    }
    if !p.king_safe(m) {
        let s = choose|s: u64| p.attacks(s, to, us, nok);
        assert(q.attacks(s, to, us, occ2));
    }
}

/// The way of a piece other than the king: a knight's jump, or a line on
/// which nothing stands between the two squares.
pub proof fn lemma_way(p: Position, m: Move)
    requires
        p.wf(),
        p.pseudo(m),
        m.moved != Piece::KING,
        m.flag != Flag::ENP,
    ensures
        knight_step(m.from as u64, m.to as u64) || clear(p.occupied(), m.from as u64, m.to as u64),
{
    let from = m.from as u64;
    let to = m.to as u64;
    let occ = p.occupied();
    if m.moved == Piece::PAWN {
        let us = p.us();
        lemma_steps_gap(from, to);
        assert forall|x: u64| #[trigger] between(from, to, x) implies !bit(occ, x) by {
            lemma_line_masks(from, to, x);
            lemma_line_order(x, x, from, to);
            lemma_bit_ops();
        }
    }
}

/// What stays the same in a plain move of a piece other than the king: the
/// king's square. And what an attack on the king after the move amounts to.
pub proof fn lemma_plain_frame(p: Position, m: Move)
    requires
        p.wf(),
        p.pseudo(m),
        m.moved != Piece::KING,
        m.flag != Flag::ENP,
    ensures
        plain(p, m),
        moved_to(p, p.after(m), m.from as u64, m.to as u64, landed(m)),
        p.king_sq(p.us()) < 64,
        p.king_sq(p.us()) != m.from,
        p.king_sq(p.us()) != m.to,
        p.after(m).king_sq(p.us()) == p.king_sq(p.us()),
        forall|x: u64|
            x < 64 ==> (bit(p.after(m).occupied(), x) <==> x == m.to as u64 || (bit(
                p.occupied(),
                x,
            ) && x != m.from as u64)),
        forall|s: u64|
            p.after(m).attacks(s, p.king_sq(p.us()), p.us(), p.after(m).occupied()) <==> s
                != m.to as u64 && p.attacks(
                s,
                p.king_sq(p.us()),
                p.us(),
                p.after(m).occupied(),
            ),
{
    let us = p.us();
    let k = p.king_sq(us);
    let from = m.from as u64;
    let to = m.to as u64;
    let q = p.after(m);
    lemma_has_king(p, us);
    lemma_bit_ops();
    lemma_byte_ops();
    lemma_board_pointwise(p);
    crate::rules::lemma_king_flags(p, m);
    lemma_pseudo_plain(p, m);
    lemma_after_plain(p, m);
    lemma_occupied_after(p, q, from, to, landed(m));
    assert(k != from);
    assert(bit(p.occupied(), k));
    assert(k != to);
    assert(landed(m) != 7);
    assert forall|s: u64| s < 64 implies (bit(q.bb[7], s) && bit(q.bb[us], s) <==> s == k) by {
        assert(bit(q.bb[us], s) <==> s == to || (bit(p.bb[us], s) && s != from));
        assert(bit(q.bb[7], s) <==> if s == to {
            false
        } else {
            bit(p.bb[7], s) && s != from
        });
        assert(bit(p.bb[7] & p.bb[us], s) <==> bit(p.bb[7], s) && bit(p.bb[us], s));
    }
    lemma_king_sq_is(q, us, k);
    assert forall|s: u64|
        q.attacks(s, k, us, q.occupied()) <==> s != to && p.attacks(s, k, us, q.occupied()) by {
        lemma_attacks_after(p, q, from, to, landed(m), s, k, q.occupied());
    }
}

/// Nothing stands between the king and a piece that gives check from
/// further than a step away.
pub proof fn lemma_checker_line(p: Position, c: u64, t: u64)
    requires
        p.wf(),
        p.checks(c),
        between(p.king_sq(p.us()), c, t),
    ensures
        !bit(p.occupied(), t),
        clear(p.occupied(), c, p.king_sq(p.us())),
{
    let us = p.us();
    let k = p.king_sq(us);
    lemma_has_king(p, us);
    lemma_steps_gap(c, k);
    lemma_line_masks(c, k, t);
    lemma_line_order(k, c, c, t);
    lemma_bit_ops();
    assert(between(c, k, t));
}

/// A move of a piece other than the king that ends every check and keeps
/// a shielding piece on its line leaves the king safe.
pub proof fn lemma_plain_sound(p: Position, m: Move)
    requires
        p.wf(),
        p.pseudo(m),
        m.moved != Piece::KING,
        m.flag != Flag::ENP,
        p.shielded(m),
    ensures
        !p.after(m).in_check(p.us()),
{
    let us = p.us();
    let k = p.king_sq(us);
    let from = m.from as u64;
    let to = m.to as u64;
    let q = p.after(m);
    let occ = p.occupied();
    let occ2 = q.occupied();
    lemma_plain_frame(p, m);
    lemma_way(p, m);
    lemma_has_king(p, us);
    lemma_bit_ops();
    lemma_board_pointwise(p);
    if q.in_check(us) {
        let s = choose|s: u64| q.attacks(s, k, us, occ2);
        assert(s != to && p.attacks(s, k, us, occ2));
        assert(s < 64);
        assert(bit(occ, s));
        assert(bit(occ, k));
        lemma_line_order(k, s, from, to);
        lemma_sight(occ, occ2, from, to, s, k);
        if p.attacks(s, k, us, occ) {
            assert(p.checks(s));
            assert(between(k, s, to));
            lemma_checker_line(p, s, to);
            assert(false);
        } else {
            assert(!clear(occ, s, k));
            let x = choose|x: u64| #[trigger] between(s, k, x) && bit(occ, x);
            assert(x == from);
            assert forall|y: u64| #[trigger] between(k, s, y) && bit(occ, y) implies y == from by {
                lemma_line_order(k, s, from, y);
            }
            lemma_sole(occ, k, s, from);
            assert(p.pins(s, from));
            assert(p.is_pinned(from));
            assert(collinear(k, from, to));
            assert(between(from, to, k) || between(from, to, s));
            assert(false);
        }
    }
}

/// A move of a piece other than the king that leaves the king safe ends
/// every check and keeps a shielding piece on its line; and then at most
/// one piece gave check.
pub proof fn lemma_plain_complete(p: Position, m: Move)
    requires
        p.wf(),
        p.pseudo(m),
        m.moved != Piece::KING,
        m.flag != Flag::ENP,
        !p.after(m).in_check(p.us()),
    ensures
        p.shielded(m),
        p.few_checks(),
{
    let us = p.us();
    let k = p.king_sq(us);
    let from = m.from as u64;
    let to = m.to as u64;
    let q = p.after(m);
    let occ = p.occupied();
    let occ2 = q.occupied();
    lemma_plain_frame(p, m);
    lemma_bit_ops();
    lemma_board_pointwise(p);
    assert forall|c: u64| #[trigger] p.checks(c) implies to == c || between(k, c, to) by {
        if to != c {
            assert(!q.attacks(c, k, us, occ2));
            assert(!p.attacks(c, k, us, occ2));
            lemma_sight(occ, occ2, from, to, c, k);
            lemma_line_order(k, c, from, to);
        }
    }
    assert(p.parries(to));
    lemma_parried(p, to);
    if p.is_pinned(from) && !collinear(k, from, to) {
        let s = choose|s: u64| p.pins(s, from);
        lemma_sole(occ, k, s, from);
        lemma_line_order(k, s, from, to);
        assert(to != s);
        lemma_sight(occ, occ2, from, to, s, k);
        assert forall|y: u64| #[trigger] between(s, k, y) && bit(occ, y) implies y == from by {
            lemma_line_order(k, s, from, y);
        }
        assert(clear(occ2, s, k));
        assert(p.attacks(s, k, us, occ2));
        assert(q.attacks(s, k, us, occ2));
        assert(false);
    }
}

/// Where some square ends every check, at most one piece gives check.
pub proof fn lemma_parried(p: Position, t: u64)
    requires
        p.wf(),
        t < 64,
        p.parries(t),
    ensures
        p.few_checks(),
{
    let us = p.us();
    let k = p.king_sq(us);
    let occ = p.occupied();
    lemma_has_king(p, us);
    lemma_bit_ops();
    lemma_board_pointwise(p);
    assert forall|c: u64, d: u64| #[trigger] p.checks(c) && #[trigger] p.checks(d) implies c
        == d by {
        if c != d {
            assert(bit(occ, c) && bit(occ, d));
            lemma_line_order(k, c, d, t);
            if between(k, c, t) {
                lemma_checker_line(p, c, t);
                if between(k, d, t) {
                    if between(k, c, d) {
                        lemma_checker_line(p, c, d);
                    } else {
                        lemma_checker_line(p, d, c);
                    }
                }
            } else {
                lemma_checker_line(p, d, t);
            }
        }
    }
}

/// The first rank around the king's own square: a square that sees the
/// king's target past the king's own square sees it past the rook's new
/// square too, and none sees it past the corner.
proof fn lemma_castle_lines(s: u64, home: u64)
    by (bit_vector)
    requires
        s < 64,
        home == 4 || home == 60,
    ensures
        between(s, (home + 2) as u64, home) ==> between(s, (home + 2) as u64, (home + 1) as u64),
        !between(s, (home + 2) as u64, (home + 3) as u64),
        between(s, (home - 2) as u64, home) ==> between(s, (home - 2) as u64, (home - 1) as u64),
        !between(s, (home - 2) as u64, (home - 4) as u64),
{
}

/// Castling leaves the king safe.
pub proof fn lemma_castle_safe(p: Position, m: Move)
    requires
        p.wf(),
        p.pseudo(m),
        m.flag == Flag::KS || m.flag == Flag::QS,
    ensures
        !p.after(m).in_check(p.us()),
        p.after(m).king_sq(p.us()) == m.to,
{
    let us = p.us();
    let k = p.king_sq(us);
    let to = m.to as u64;
    let q = p.after(m);
    let occ = p.occupied();
    let occ2 = q.occupied();
    let home: u64 = if p.stm {
        60
    } else {
        4
    };
    let corner = if m.flag == Flag::KS {
        (home + 3) as u64
    } else {
        (home - 4) as u64
    };
    let next = if m.flag == Flag::KS {
        (home + 1) as u64
    } else {
        (home - 1) as u64
    };
    lemma_after_castle(p, m);
    lemma_has_king(p, us);
    lemma_bit_ops();
    lemma_board_pointwise(p);
    crate::effects::lemma_castle_consts();
    assert(castled(p, q, home, to, corner, next));
    assert(p.castle_pseudo(m));
    assert(bit(p.bb[7] & p.bb[us], home));
    assert(home == k);
    let path = if m.flag == Flag::KS {
        crate::consts::Path::TABLE[us][1]
    } else {
        crate::consts::Path::TABLE[us][0]
    };
    assert(bit(occ & path, to) <==> bit(occ, to) && bit(path, to));
    assert(bit(occ & path, next) <==> bit(occ, next) && bit(path, next));
    assert(!bit(occ, to) && !bit(occ, next));
    assert(p.can_still_castle(us, home, corner));
    assert forall|s: u64| s < 64 implies (bit(q.bb[7], s) && bit(q.bb[us], s) <==> s == to) by {
        assert(bit(q.bb[7], s) <==> s == to || (bit(p.bb[7], s) && s != home));
        assert(bit(q.bb[us], s) <==> s == to || s == next || (bit(p.bb[us], s) && s != home && s
            != corner));
        assert(bit(p.bb[7] & p.bb[us], s) <==> bit(p.bb[7], s) && bit(p.bb[us], s));
    }
    lemma_king_sq_is(q, us, to);
    assert forall|x: u64| x < 64 implies (bit(occ2, x) <==> x == to || x == next || (bit(occ, x)
        && x != home && x != corner)) by {
        assert(bit(occ2, x) <==> bit(q.bb[0], x) || bit(q.bb[1], x));
        assert(bit(occ, x) <==> bit(p.bb[0], x) || bit(p.bb[1], x));
        assert(bit(q.bb[us], x) <==> x == to || x == next || (bit(p.bb[us], x) && x != home && x
            != corner));
        assert(bit(q.bb[1 - us], x) <==> bit(p.bb[1 - us], x));
    }
    if q.in_check(us) {
        let s = choose|s: u64| q.attacks(s, to, us, occ2);
        assert(s < 64);
        assert(bit(p.bb[1 - us], s));
        assert(s != home && s != corner && s != to && s != next);
        assert forall|i: int| 0 <= i < 8 implies (bit(q.bb[i], s) <==> bit(p.bb[i], s)) by {
            if i == 7 {
                assert(bit(q.bb[7], s) <==> s == to || (bit(p.bb[7], s) && s != home));
            } else if i == 5 {
                assert(bit(q.bb[5], s) <==> s == next || (bit(p.bb[5], s) && s != corner));
            } else if i >= 2 {
                assert(bit(q.bb[i], s) <==> bit(p.bb[i], s));
            } else if i == us {
                assert(bit(q.bb[us], s) <==> s == to || s == next || (bit(p.bb[us], s) && s
                    != home && s != corner));
            }
        }
        lemma_attacks_local(p, q, s, to, us, occ2);
        assert(p.attacks(s, to, us, occ2));
        assert(!p.attacks(s, to, us, occ));
        lemma_castle_lines(s, home);
        assert(clear(occ2, s, to));
        assert forall|x: u64| #[trigger] between(s, to, x) implies !bit(occ, x) by {
            assert(!bit(occ2, x));
            if x == home {
                assert(between(s, to, next));
                assert(!bit(occ2, next));
            }
        }
        assert(clear(occ, s, to));
        assert(false);
    }
}

/// The occupied squares after a capture in passing, and what an attack on
/// the king amounts to then.
pub proof fn lemma_ep_frame(p: Position, m: Move)
    requires
        p.wf(),
        p.pseudo(m),
        m.flag == Flag::ENP,
    ensures
        (m.to ^ 8) < 64,
        bit(p.bb[2], (m.to ^ 8) as u64),
        bit(p.bb[1 - p.us()], (m.to ^ 8) as u64),
        !bit(p.occupied(), m.to as u64),
        if p.stm {
            m.to + 8 == (m.to ^ 8)
        } else {
            (m.to ^ 8) + 8 == m.to
        },
        p.after(m).king_sq(p.us()) == p.king_sq(p.us()),
        forall|x: u64|
            x < 64 ==> (bit(p.after(m).occupied(), x) <==> x == m.to as u64 || (bit(
                p.occupied(),
                x,
            ) && x != m.from as u64 && x != (m.to ^ 8) as u64)),
        forall|s: u64|
            p.after(m).attacks(s, p.king_sq(p.us()), p.us(), p.after(m).occupied()) <==> s != (
            m.to ^ 8) as u64 && p.attacks(
                s,
                p.king_sq(p.us()),
                p.us(),
                p.after(m).occupied(),
            ),
{
    let us = p.us();
    let k = p.king_sq(us);
    let from = m.from as u64;
    let to = m.to as u64;
    let v = (m.to ^ 8) as u64;
    let q = p.after(m);
    let occ = p.occupied();
    let occ2 = q.occupied();
    lemma_after_ep(p, m);
    lemma_ep_king(p, m);
    lemma_has_king(p, us);
    lemma_bit_ops();
    lemma_byte_ops();
    lemma_board_pointwise(p);
    assert(took_in_passing(p, q, from, to, v));
    assert forall|x: u64| x < 64 implies (bit(occ2, x) <==> x == to || (bit(occ, x) && x != from
        && x != v)) by {
        assert(bit(occ2, x) <==> bit(q.bb[0], x) || bit(q.bb[1], x));
        assert(bit(occ, x) <==> bit(p.bb[0], x) || bit(p.bb[1], x));
        assert(bit(q.bb[us], x) <==> x == to || (bit(p.bb[us], x) && x != from));
        assert(bit(q.bb[1 - us], x) <==> bit(p.bb[1 - us], x) && x != v);
    }
    assert forall|s: u64| q.attacks(s, k, us, occ2) <==> s != v && p.attacks(s, k, us, occ2) by {
        if s < 64 {
            assert(bit(q.bb[1 - us], s) <==> bit(p.bb[1 - us], s) && s != v);
            if s != v && s != from && s != to {
                assert forall|i: int| 0 <= i < 8 implies (bit(q.bb[i], s) <==> bit(
                    p.bb[i],
                    s,
                )) by {
                    if i >= 3 {
                        assert(bit(q.bb[i], s) <==> bit(p.bb[i], s));
                    } else if i == 2 {
                        assert(bit(q.bb[2], s) <==> s == to || (bit(p.bb[2], s) && s != from && s
                            != v));
                    } else if i == us {
                        assert(bit(q.bb[us], s) <==> s == to || (bit(p.bb[us], s) && s != from));
                    }
                }
                lemma_attacks_local(p, q, s, k, us, occ2);
            }
        }
    }
}

/// A capture in passing does not end a check by two pieces.
pub proof fn lemma_ep_checks(p: Position, m: Move)
    requires
        p.wf(),
        p.pseudo(m),
        m.flag == Flag::ENP,
        !p.after(m).in_check(p.us()),
    ensures
        p.few_checks(),
{
    let us = p.us();
    let k = p.king_sq(us);
    let from = m.from as u64;
    let to = m.to as u64;
    let v = (m.to ^ 8) as u64;
    let q = p.after(m);
    let occ = p.occupied();
    let occ2 = q.occupied();
    lemma_ep_frame(p, m);
    lemma_has_king(p, us);
    lemma_bit_ops();
    lemma_board_pointwise(p);
    assert forall|c: u64| #[trigger] p.checks(c) && c != v implies between(k, c, to) by {
        assert(!q.attacks(c, k, us, occ2));
        assert(!p.attacks(c, k, us, occ2));
        assert(!clear(occ2, c, k));
        let x = choose|x: u64| #[trigger] between(c, k, x) && bit(occ2, x);
        assert(x == to);
        lemma_line_order(k, c, c, to);
    }
    assert forall|c: u64, d: u64| #[trigger] p.checks(c) && #[trigger] p.checks(d) implies c
        == d by {
        if c != d {
            assert(bit(occ, c) && bit(occ, d));
            lemma_line_order(k, c, d, to);
            lemma_line_order(k, d, v, to);
            lemma_line_order(k, c, v, to);
            if c != v && d != v {
                if between(k, c, d) {
                    lemma_checker_line(p, c, d);
                } else {
                    lemma_checker_line(p, d, c);
                }
            } else {
                assert(p.checks(v));
                assert(pawn_attack(1 - us, v, k));
                assert(knight_step(to, k));
            }
        }
    }
}

/// After a move that follows the rules the mover's king stands on the
/// board: where it went, or where it stood.
pub proof fn lemma_king_after(p: Position, m: Move)
    requires
        p.wf(),
        p.pseudo(m),
    ensures
        p.after(m).king_sq(p.us()) < 64,
        p.after(m).king_sq(p.us()) == if m.moved == Piece::KING {
            m.to as u64
        } else {
            p.king_sq(p.us())
        },
        p.after(m).stm == !p.stm,
{
    crate::rules::lemma_king_flags(p, m);
    if m.moved == Piece::KING {
        if m.flag == Flag::KS || m.flag == Flag::QS {
            lemma_castle_safe(p, m);
            lemma_after_castle(p, m);
        } else {
            lemma_king_step(p, m);
            lemma_pseudo_plain(p, m);
            lemma_after_plain(p, m);
        }
    } else if m.flag == Flag::ENP {
        lemma_ep_king(p, m);
        lemma_after_ep(p, m);
    } else {
        lemma_plain_frame(p, m);
        lemma_after_plain(p, m);
    }
}

/// On a sound position the moves that the generator goes by are the legal
/// moves.
pub proof fn lemma_generated_is_legal(p: Position, m: Move)
    requires
        p.wf(),
    ensures
        p.generated(m) <==> p.legal(m),
{
    if p.pseudo(m) {
        crate::rules::lemma_king_flags(p, m);
        if m.moved == Piece::KING {
            if m.flag == Flag::KS || m.flag == Flag::QS {
                lemma_castle_safe(p, m);
            } else {
                lemma_king_step(p, m);
            }
        } else if m.flag == Flag::ENP {
            if !p.after(m).in_check(p.us()) {
                lemma_ep_checks(p, m);
            }
        } else {
            if p.shielded(m) {
                lemma_plain_sound(p, m);
            }
            if !p.after(m).in_check(p.us()) {
                lemma_plain_complete(p, m);
            }
        }
    }
}

} // verus!
