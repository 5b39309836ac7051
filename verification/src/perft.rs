//! Counting lines of play: how many ways there are to play a given number
//! of legal moves from a position.

use vstd::prelude::*;
use crate::laws::lemma_legal_move_keeps_playable;
use crate::position::Move;
use crate::position::Position;

verus! {

/// `l` lists the legal moves of `p`, each once.
pub open spec fn lists_legal(p: Position, l: Seq<Move>) -> bool {
    l.no_duplicates() && forall|m: Move| l.contains(m) <==> p.legal(m)
}

/// The legal moves of `p` in some order, each once.
pub open spec fn legal_list(p: Position) -> Seq<Move> {
    choose|l: Seq<Move>| lists_legal(p, l)
}

/// The number of lines of play of `depth` legal moves from `p`: one where
/// no move is to be played, else the lines that follow each legal move,
/// taken together.
pub open spec fn nodes(p: Position, depth: nat) -> nat
    decreases depth, 0nat,
{
    if depth == 0 {
        1
    } else {
        nodes_over(p, legal_list(p), (depth - 1) as nat)
    }
}

/// The number of lines of play of `depth` moves after each of `moves`,
/// taken together.
pub open spec fn nodes_over(p: Position, moves: Seq<Move>, depth: nat) -> nat
    decreases depth, 1 + moves.len(),
{
    if moves.len() == 0 {
        0
    } else {
        nodes(p.after(moves[0]), depth) + nodes_over(p, moves.drop_first(), depth)
    }
}

/// A move can be counted out of its turn.
proof fn lemma_count_apart(p: Position, l: Seq<Move>, depth: nat, j: int)
    requires
        0 <= j < l.len(),
    ensures
        nodes_over(p, l, depth) == nodes(p.after(l[j]), depth) + nodes_over(p, l.remove(j), depth),
    decreases j,
{
    if j == 0 {
        assert(l.remove(0) =~= l.drop_first());
    } else {
        let rest = l.drop_first();
        lemma_count_apart(p, rest, depth, j - 1);
        assert(l.remove(j).drop_first() =~= rest.remove(j - 1));
        assert(l.remove(j)[0] == l[0]);
    }
}

/// The count does not depend on the order of the moves.
proof fn lemma_count_any_order(p: Position, a: Seq<Move>, b: Seq<Move>, depth: nat)
    requires
        a.no_duplicates(),
        b.no_duplicates(),
        forall|m: Move| a.contains(m) <==> b.contains(m),
    ensures
        nodes_over(p, a, depth) == nodes_over(p, b, depth),
        a.len() == b.len(),
    decreases a.len(),
{
    if a.len() == 0 {
        if b.len() > 0 {
            assert(b.contains(b[0]));
            let i = choose|i: int| 0 <= i < a.len() && a[i] == b[0];
        }
    } else {
        assert(a.contains(a[0]));
        let j = choose|j: int| 0 <= j < b.len() && b[j] == a[0];
        let a1 = a.drop_first();
        let b1 = b.remove(j);
        lemma_count_apart(p, b, depth, j);
        assert forall|m: Move| a1.contains(m) <==> b1.contains(m) by {
            if a1.contains(m) {
                let i = choose|i: int| 0 <= i < a1.len() && a1[i] == m;
                assert(a[i + 1] == m);
                assert(m != a[0]);
                assert(a.contains(m));
                let k = choose|k: int| 0 <= k < b.len() && b[k] == m;
                if k < j {
                    assert(b1[k] == m);
                } else {
                    assert(b1[k - 1] == m);
                }
            }
            if b1.contains(m) {
                let k = choose|k: int| 0 <= k < b1.len() && b1[k] == m;
                let k0 = if k < j {
                    k
                } else {
                    k + 1
                };
                assert(b[k0] == m);
                assert(b.contains(m));
                let i = choose|i: int| 0 <= i < a.len() && a[i] == m;
                assert(i != 0);
                assert(a1[i - 1] == m);
            }
        }
        assert(a1.no_duplicates());
        assert(b1.no_duplicates());
        lemma_count_any_order(p, a1, b1, depth);
    }
}

/// Where no move follows, every move counts for one line.
proof fn lemma_count_leaves(p: Position, l: Seq<Move>)
    ensures
        nodes_over(p, l, 0) == l.len(),
    decreases l.len(),
{
        if l.len() > 0 {
        lemma_count_leaves(p, l.drop_first());
        assert(nodes(p.after(l[0]), 0) == 1);
    }
}

/// The number of lines of play of `depth` legal moves from `pos`, unless
/// it is too large for the result. The moves of the last step are counted,
/// not played.
pub fn try_perft(pos: &Position, depth: u8) -> (r: Option<u64>)
    requires
        pos.playable(),
    ensures
        match r {
            Some(n) => n == nodes(*pos, depth as nat),
            None => nodes(*pos, depth as nat) > u64::MAX,
        },
    decreases depth,
{
    if depth == 0 {
        return Some(1);
    }
    let moves = pos.gen();
    let ghost below = (depth - 1) as nat;
    proof {
        assert forall|m: Move| moves@.contains(m) <==> pos.legal(m) by {
            assert(moves.holds(m) <==> pos.legal(m));
        }
        assert(lists_legal(*pos, moves@));
        lemma_count_any_order(*pos, moves@, legal_list(*pos), below);
    }
    if depth == 1 {
        proof {
            lemma_count_leaves(*pos, moves@);
        }
        return Some(moves.len() as u64);
    }
    let mut total: u64 = 0;
    let mut i: usize = 0;
    proof {
        assert(moves@.skip(0) =~= moves@);
    }
    while i < moves.len()
        invariant
            pos.playable(),
            depth > 1,
            below == depth - 1,
            i <= moves@.len(),
            forall|m: Move| moves.holds(m) ==> pos.legal(m),
            nodes(*pos, depth as nat) == nodes_over(*pos, moves@, below),
            total + nodes_over(*pos, moves@.skip(i as int), below) == nodes_over(
                *pos,
                moves@,
                below,
            ),
        decreases moves@.len() - i,
    {
        let m = moves.list[i];
        let mut next = *pos;
        proof {
            assert(moves@.skip(i as int).drop_first() =~= moves@.skip(i + 1));
            assert(moves@.skip(i as int)[0] == m);
            assert(moves.holds(m));
            lemma_legal_move_keeps_playable(*pos, m);
        }
        next.make(m);
        proof {
            assert(nodes_over(*pos, moves@.skip(i as int), below) == nodes(pos.after(m), below)
                + nodes_over(*pos, moves@.skip(i + 1), below));
        }
        let sum = match try_perft(&next, depth - 1) {
            Some(n) => total.checked_add(n),
            None => None,
        };
        match sum {
            Some(n) => {
                total = n;
            },
            None => {
                return None;
            },
        }
        i += 1;
    }
    Some(total)
}

/// The number of lines of play of `depth` legal moves from `pos`.
pub fn perft(pos: &Position, depth: u8) -> (n: u64)
    requires
        pos.playable(),
        nodes(*pos, depth as nat) <= u64::MAX,
    ensures
        n == nodes(*pos, depth as nat),
{
    match try_perft(pos, depth) {
        Some(n) => n,
        None => 0,
    }
}

} // verus!
