use chess_movegen::consts::Flag;
use chess_movegen::consts::Piece;
use chess_movegen::consts::Right;
use chess_movegen::consts::Side;
use chess_movegen::movegen::MoveList;
use chess_movegen::position::Move;
use chess_movegen::position::Position;

const START: &str = "rnbqkbnr/pppppppp/8/8/8/8/PPPPPPPP/RNBQKBNR w KQkq - 0 1";
const KIWIPETE: &str = "r3k2r/p1ppqpb1/bn2pnp1/3PN3/1p2P3/2N2Q1p/PPPBBPPP/R3K2R w KQkq -";

fn same(a: &Position, b: &Position) -> bool {
    a.bb == b.bb && a.stm == b.stm && a.enp_sq == b.enp_sq && a.rights == b.rights
}

fn texts(moves: &MoveList) -> Vec<String> {
    let mut all = Vec::new();
    for i in 0..moves.len() {
        all.push(moves.list[i].to_uci());
    }
    all.sort();
    all
}

fn find(moves: &MoveList, text: &str) -> Option<Move> {
    for i in 0..moves.len() {
        if moves.list[i].to_uci() == text {
            return Some(moves.list[i]);
        }
    }
    None
}

#[test]
fn move_text() {
    assert_eq!(Move::new(12, 28, Flag::DBL, Piece::PAWN as u8).to_uci(), "e2e4");
    assert_eq!(Move::new(52, 60, Flag::QPR, Piece::PAWN as u8).to_uci(), "e7e8q");
    assert_eq!(Move::new(52, 61, Flag::NPC, Piece::PAWN as u8).to_uci(), "e7f8n");
    assert_eq!(Move::new(8, 0, Flag::BPR, Piece::PAWN as u8).to_uci(), "a2a1b");
    assert_eq!(Move::new(15, 7, Flag::RPR, Piece::PAWN as u8).to_uci(), "h2h1r");
    assert_eq!(Move::new(4, 6, Flag::KS, Piece::KING as u8).to_uci(), "e1g1");
    assert_eq!(Move::new(0, 63, Flag::QUIET, Piece::QUEEN as u8).to_uci(), "a1h8");
}

#[test]
fn move_parts() {
    let m = Move::new(1, 2, 3, 4);
    assert_eq!(m.from, 1);
    assert_eq!(m.to, 2);
    assert_eq!(m.flag, 3);
    assert_eq!(m.moved, 4);
    assert_eq!(Move::default(), Move::new(0, 0, 0, 0));
}

#[test]
fn start_position_moves() {
    let pos = Position::parse_fen(START);
    assert!(pos.is_valid());
    let moves = pos.gen();
    assert_eq!(
        texts(&moves),
        vec![
            "a2a3", "a2a4", "b1a3", "b1c3", "b2b3", "b2b4", "c2c3", "c2c4", "d2d3", "d2d4",
            "e2e3", "e2e4", "f2f3", "f2f4", "g1f3", "g1h3", "g2g3", "g2g4", "h2h3", "h2h4",
        ]
    );
}

#[test]
fn accessors() {
    let pos = Position::parse_fen(START);
    assert_eq!(pos.stm(), Side::WHITE);
    assert_eq!(pos.rights(), 15);
    assert_eq!(pos.enp_sq(), 0);
    assert_eq!(pos.occ(), 0xFFFF_0000_0000_FFFF);
    assert_eq!(pos.boys(), 0x0000_0000_0000_FFFF);
    assert_eq!(pos.opps(), 0xFFFF_0000_0000_0000);
    assert_eq!(pos.king_index(), 4);
    assert_eq!(pos.piece(Piece::PAWN), 0x00FF_0000_0000_FF00);
    assert_eq!(pos.piece(Piece::KING), (1u64 << 4) | (1u64 << 60));
    assert_eq!(pos.get_pc(1 << 0), Piece::ROOK);
    assert_eq!(pos.get_pc(1 << 1), Piece::KNIGHT);
    assert_eq!(pos.get_pc(1 << 2), Piece::BISHOP);
    assert_eq!(pos.get_pc(1 << 3), Piece::QUEEN);
    assert_eq!(pos.get_pc(1 << 4), Piece::KING);
    assert_eq!(pos.get_pc(1 << 8), Piece::PAWN);
    assert_eq!(pos.get_pc(1 << 30), Piece::EMPTY);
    let black = Position::parse_fen("4k3/8/8/8/8/8/8/4K3 b - -");
    assert_eq!(black.stm(), Side::BLACK);
    assert_eq!(black.king_index(), 60);
}

#[test]
fn double_push_names_the_square_passed() {
    let mut pos = Position::parse_fen(START);
    pos.make(Move::new(12, 28, Flag::DBL, Piece::PAWN as u8));
    assert!(same(
        &pos,
        &Position::parse_fen("rnbqkbnr/pppppppp/8/8/4P3/8/PPPP1PPP/RNBQKBNR b KQkq e3")
    ));
    assert_eq!(pos.enp_sq(), 20);
    pos.make(Move::new(50, 34, Flag::DBL, Piece::PAWN as u8));
    assert_eq!(pos.enp_sq(), 42);
    pos.make(Move::new(6, 21, Flag::QUIET, Piece::KNIGHT as u8));
    assert_eq!(pos.enp_sq(), 0);
    assert!(pos.is_valid());
}

#[test]
fn castling_moves_the_rook() {
    let mut pos = Position::parse_fen(KIWIPETE);
    pos.make(Move::new(4, 6, Flag::KS, Piece::KING as u8));
    assert!(same(
        &pos,
        &Position::parse_fen("r3k2r/p1ppqpb1/bn2pnp1/3PN3/1p2P3/2N2Q1p/PPPBBPPP/R4RK1 b kq -")
    ));
    pos.make(Move::new(60, 58, Flag::QS, Piece::KING as u8));
    assert!(same(
        &pos,
        &Position::parse_fen("2kr3r/p1ppqpb1/bn2pnp1/3PN3/1p2P3/2N2Q1p/PPPBBPPP/R4RK1 w - -")
    ));
    assert!(pos.is_valid());
}

#[test]
fn rights_lapse_when_rook_moves_or_falls() {
    let mut pos = Position::parse_fen("r3k2r/8/8/8/8/8/8/R3K2R w KQkq -");
    pos.make(Move::new(0, 56, Flag::CAP, Piece::ROOK as u8));
    assert_eq!(pos.rights(), Right::WKS | Right::BKS);
    pos.make(Move::new(63, 7, Flag::CAP, Piece::ROOK as u8));
    assert_eq!(pos.rights(), 0);
    assert!(pos.is_valid());
}

#[test]
fn capture_in_passing_takes_the_pawn_behind() {
    let mut pos = Position::parse_fen("4k3/8/8/3pP3/8/8/8/4K3 w - d6");
    assert!(pos.is_valid());
    let moves = pos.gen();
    let m = find(&moves, "e5d6").unwrap();
    assert_eq!(m.flag, Flag::ENP);
    pos.make(m);
    assert!(same(&pos, &Position::parse_fen("4k3/8/3P4/8/8/8/8/4K3 b - -")));
}

#[test]
fn promotion_puts_the_new_piece() {
    let mut pos = Position::parse_fen("1n2k3/P7/8/8/8/8/8/4K3 w - -");
    let moves = pos.gen();
    assert_eq!(
        texts(&moves),
        vec![
            "a7a8b", "a7a8n", "a7a8q", "a7a8r", "a7b8b", "a7b8n", "a7b8q", "a7b8r", "e1d1",
            "e1d2", "e1e2", "e1f1", "e1f2",
        ]
    );
    pos.make(Move::new(48, 57, Flag::QPC, Piece::PAWN as u8));
    assert!(same(&pos, &Position::parse_fen("1Q2k3/8/8/8/8/8/8/4K3 b - -")));
    let mut under = Position::parse_fen("1n2k3/P7/8/8/8/8/8/4K3 w - -");
    under.make(Move::new(48, 56, Flag::NPR, Piece::PAWN as u8));
    assert!(same(&under, &Position::parse_fen("Nn2k3/8/8/8/8/8/8/4K3 b - -")));
}

#[test]
fn en_passant_that_bares_the_king_along_the_rank_is_left_out() {
    // the white king and the black rook share the fifth rank with both pawns
    let pos = Position::parse_fen("7k/8/8/KPp4r/8/8/8/8 w - c6");
    assert!(pos.is_valid());
    let moves = pos.gen();
    assert_eq!(find(&moves, "b5c6"), None);
    assert_eq!(texts(&moves), vec!["a5a4", "a5a6", "a5b6", "b5b6"]);
    // without the rook the capture is there
    let free = Position::parse_fen("7k/8/8/KPp5/8/8/8/8 w - c6");
    assert_eq!(find(&free.gen(), "b5c6").map(|m| m.flag), Some(Flag::ENP));
    // and so it is for Black
    let black = Position::parse_fen("8/8/8/8/R4pPk/8/8/K7 b - g3");
    assert!(black.is_valid());
    assert_eq!(find(&black.gen(), "f4g3"), None);
}

#[test]
fn en_passant_that_ends_a_check() {
    let pos = Position::parse_fen("8/8/8/2k5/3Pp3/8/8/4K3 b - d3");
    assert!(pos.is_valid());
    assert!(pos.is_in_check());
    assert_eq!(find(&pos.gen(), "e4d3").map(|m| m.flag), Some(Flag::ENP));
}

#[test]
fn pinned_pieces_stay_on_the_line() {
    // the bishop on d2 shields the king on e1 from the bishop on a5
    let pos = Position::parse_fen("4k3/8/8/b7/8/8/3B4/4K3 w - -");
    let moves = pos.gen();
    assert_eq!(
        texts(&moves),
        vec!["d2a5", "d2b4", "d2c3", "e1d1", "e1e2", "e1f1", "e1f2"]
    );
    // a pinned knight does not move at all
    let knight = Position::parse_fen("4k3/8/8/8/8/4r3/4N3/4K3 w - -");
    assert_eq!(texts(&knight.gen()), vec!["e1d1", "e1d2", "e1f1", "e1f2"]);
}

#[test]
fn single_check_is_met_by_capture_block_or_flight() {
    let pos = Position::parse_fen("4k3/8/8/8/7b/8/3N4/R3K3 w - -");
    assert!(pos.is_in_check());
    assert_eq!(texts(&pos.gen()), vec!["e1d1", "e1e2", "e1f1"]);
    let block = Position::parse_fen("4k3/8/8/8/7b/8/6P1/4K3 w - -");
    assert!(block.is_in_check());
    assert_eq!(texts(&block.gen()), vec!["e1d1", "e1d2", "e1e2", "e1f1", "g2g3"]);
    let rook = Position::parse_fen("4k3/8/8/8/8/8/3N4/R3K2r w - -");
    assert_eq!(texts(&rook.gen()), vec!["d2f1", "e1e2", "e1f2"]);
}

#[test]
fn double_check_leaves_only_king_moves() {
    let pos = Position::parse_fen("4k3/8/8/8/1b6/5n2/8/R3K2R w KQ -");
    assert!(pos.is_valid());
    assert!(pos.is_in_check());
    assert_eq!(texts(&pos.gen()), vec!["e1d1", "e1e2", "e1f1", "e1f2"]);
}

#[test]
fn king_does_not_step_back_along_the_line_of_check() {
    let pos = Position::parse_fen("4k3/8/8/8/8/8/8/r3K3 w - -");
    assert_eq!(texts(&pos.gen()), vec!["e1d2", "e1e2", "e1f2"]);
}

#[test]
fn castling_needs_a_safe_path() {
    let open = Position::parse_fen("4k3/8/8/8/8/8/8/R3K2R w KQ -");
    assert!(find(&open.gen(), "e1g1").is_some());
    assert!(find(&open.gen(), "e1c1").is_some());
    // a rook on f8 covers f1, a rook on b8 covers only b1
    let covered = Position::parse_fen("1r2kr2/8/8/8/8/8/8/R3K2R w KQ -");
    assert!(find(&covered.gen(), "e1g1").is_none());
    assert_eq!(find(&covered.gen(), "e1c1").map(|m| m.flag), Some(Flag::QS));
    // a piece in the way
    let blocked = Position::parse_fen("4k3/8/8/8/8/8/8/RN2K1NR w KQ -");
    assert!(find(&blocked.gen(), "e1g1").is_none());
    assert!(find(&blocked.gen(), "e1c1").is_none());
    // no right, no castling
    let none = Position::parse_fen("4k3/8/8/8/8/8/8/R3K2R w - -");
    assert!(find(&none.gen(), "e1g1").is_none());
    // not out of check
    let check = Position::parse_fen("4k3/8/8/8/8/8/4r3/R3K2R w KQ -");
    assert!(find(&check.gen(), "e1g1").is_none());
    assert!(find(&check.gen(), "e1c1").is_none());
}

#[test]
fn stalemate_and_mate_leave_no_moves() {
    let stalemate = Position::parse_fen("7k/5Q2/6K1/8/8/8/8/8 b - -");
    assert!(stalemate.is_valid());
    assert!(!stalemate.is_in_check());
    assert_eq!(stalemate.gen().len(), 0);
    let mate = Position::parse_fen("7k/6Q1/6K1/8/8/8/8/8 b - -");
    assert!(mate.is_in_check());
    assert_eq!(mate.gen().len(), 0);
}

#[test]
fn position_with_218_moves() {
    let pos = Position::parse_fen("R6R/3Q4/1Q4Q1/4Q3/2Q4Q/Q4Q2/pp1Q4/kBNN1KB1 w - -");
    assert!(pos.is_valid());
    assert_eq!(pos.gen().len(), 218);
}

/// Goes through the tree of legal moves and holds every position to what
/// must be true of it.
fn walk_tree(pos: &Position, depth: u8) {
    assert!(pos.is_valid());
    let moves = pos.gen();
    for i in 0..moves.len() {
        let m = moves.list[i];
        for j in 0..i {
            assert_ne!(moves.list[j], m);
        }
        let saved = *pos;
        let mut next = *pos;
        next.make(m);
        // the position itself is untouched and a copy brings it back
        assert!(same(pos, &saved));
        // the mover's king is safe
        let mover = pos.stm();
        let king = (next.piece(Piece::KING) & next.piece(mover)).trailing_zeros() as usize;
        assert!(king < 64);
        assert!(!next.is_square_attacked(king, mover, next.occ()));
        assert!(!next.is_sq_att(king, mover, next.occ()));
        // playing on trial says the same
        let mut trial = *pos;
        assert!(!trial.do_move(m));
        assert!(same(&trial, &next));
        assert!(next.is_valid());
        assert!(next.is_playable());
        if depth > 1 {
            walk_tree(&next, depth - 1);
        }
    }
}

#[test]
fn every_move_keeps_the_position_sound_and_the_king_safe() {
    walk_tree(&Position::parse_fen(START), 3);
    walk_tree(&Position::parse_fen(KIWIPETE), 3);
    walk_tree(&Position::parse_fen("8/2p5/3p4/KP5r/1R3p1k/8/4P1P1/8 w - -"), 4);
    walk_tree(
        &Position::parse_fen("r3k2r/Pppp1ppp/1b3nbN/nP6/BBP1P3/q4N2/Pp1P2PP/R2Q1RK1 w kq -"),
        3,
    );
}

#[test]
fn trial_sorts_the_moves_that_follow_the_rules() {
    let fixtures =
        [START, KIWIPETE, "7k/8/8/KPp4r/8/8/8/8 w - c6", "4k3/8/8/8/1b6/5n2/8/R3K2R w KQ -"];
    for text in fixtures {
        let pos = Position::parse_fen(text);
        let legal = pos.gen();
        let all = pos.gen_pseudo();
        let mut kept = Vec::new();
        for i in 0..all.len() {
            let mut trial = pos;
            if !trial.do_move(all.list[i]) {
                kept.push(all.list[i].to_uci());
            }
        }
        kept.sort();
        assert_eq!(kept, texts(&legal));
        assert!(all.len() >= legal.len());
    }
    // the pinned knight's jumps follow the rules and are not legal
    let pinned = Position::parse_fen("4k3/8/8/8/8/4r3/4N3/4K3 w - -");
    assert_eq!(pinned.gen_pseudo().len(), 10);
    assert_eq!(pinned.gen().len(), 4);
}

#[test]
fn positions_that_cannot_arise_are_told() {
    // the side that is not to move is in check
    let pos = Position::parse_fen("4k3/8/8/8/8/8/4R3/4K3 w - -");
    assert!(pos.is_valid());
    assert!(!pos.is_playable());
    assert!(Position::parse_fen("4k3/8/8/8/8/8/4R3/4K3 b - -").is_playable());
    assert!(!Position::default().is_playable());
}

#[test]
fn trial_tells_illegal_moves() {
    // the knight on e2 shields the king from the rook on e3
    let pos = Position::parse_fen("4k3/8/8/8/8/4r3/4N3/4K3 w - -");
    let mut trial = pos;
    assert!(trial.do_move(Move::new(12, 29, Flag::QUIET, Piece::KNIGHT as u8)));
    let mut fine = pos;
    assert!(!fine.do_move(Move::new(4, 3, Flag::QUIET, Piece::KING as u8)));
}

#[test]
fn toggle_twice_changes_nothing() {
    let pos = Position::parse_fen(KIWIPETE);
    let mut work = pos;
    work.toggle(Side::WHITE, Piece::QUEEN, 1 << 40);
    assert!(!same(&work, &pos));
    assert_eq!(work.piece(Piece::QUEEN), pos.piece(Piece::QUEEN) | (1 << 40));
    assert_eq!(work.piece(Side::WHITE), pos.piece(Side::WHITE) | (1 << 40));
    work.toggle(Side::WHITE, Piece::QUEEN, 1 << 40);
    assert!(same(&work, &pos));
}

#[test]
fn attackers_of_a_square() {
    let pos = Position::parse_fen("4k3/8/8/8/1b6/5n2/8/R3K2R w KQ -");
    // the bishop on b4 and the knight on f3 attack e1
    assert_eq!(pos.attackers_to_square(4, Side::WHITE, pos.occ()), (1 << 25) | (1 << 21));
    assert!(pos.is_square_attacked(4, Side::WHITE, pos.occ()));
    assert!(pos.is_sq_att(4, Side::WHITE, pos.occ()));
    // white's rooks and king attack d1 as Black sees it
    assert_eq!(pos.attackers_to_square(3, Side::BLACK, pos.occ()), (1 << 0) | (1 << 4));
    assert!(!pos.is_square_attacked(63, Side::WHITE, pos.occ()));
    assert!(!pos.is_sq_att(63, Side::WHITE, pos.occ()));
}

#[test]
fn unsound_positions_are_told() {
    assert!(!Position::default().is_valid());
    // two white kings
    assert!(!Position::parse_fen("4k3/8/8/8/8/8/8/3KK3 w - -").is_valid());
    // no black king
    assert!(!Position::parse_fen("8/8/8/8/8/8/8/4K3 w - -").is_valid());
    // a right without its rook
    assert!(!Position::parse_fen("4k3/8/8/8/8/8/8/4K3 w K -").is_valid());
    // an en-passant square with no pawn behind it
    assert!(!Position::parse_fen("4k3/8/8/8/8/8/8/4K3 w - e6").is_valid());
    // an en-passant square on the wrong rank for the side to move
    assert!(!Position::parse_fen("4k3/8/8/8/4P3/8/8/4K3 w - e3").is_valid());
    assert!(Position::parse_fen("4k3/8/8/8/4P3/8/8/4K3 b - e3").is_valid());
    // one square, two pieces
    let mut clash = Position::parse_fen("4k3/8/8/8/8/8/8/4K3 w - -");
    clash.toggle(Side::BLACK, Piece::ROOK, 1 << 4);
    assert!(!clash.is_valid());
}
