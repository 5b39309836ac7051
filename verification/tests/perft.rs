use chess_movegen::perft::perft;
use chess_movegen::perft::try_perft;
use chess_movegen::position::Position;

/// Counts by making every move that follows the rules and keeping those
/// that turn out legal.
fn perft_by_trial(pos: &Position, depth: u8) -> u64 {
    let moves = pos.gen_pseudo();
    let mut nodes = 0;
    for i in 0..moves.len() {
        let mut next = *pos;
        if next.do_move(moves.list[i]) {
            continue;
        }
        nodes += if depth > 1 { perft_by_trial(&next, depth - 1) } else { 1 };
    }
    nodes
}

fn playable(text: &str) -> Position {
    let pos = Position::parse_fen(text);
    assert!(pos.is_playable());
    pos
}

const START: &str = "rnbqkbnr/pppppppp/8/8/8/8/PPPPPPPP/RNBQKBNR w KQkq - 0 1";
const KIWIPETE: &str = "r3k2r/p1ppqpb1/bn2pnp1/3PN3/1p2P3/2N2Q1p/PPPBBPPP/R3K2R w KQkq -";
const ENDGAME: &str = "8/2p5/3p4/KP5r/1R3p1k/8/4P1P1/8 w - -";
const PROMOTIONS: &str = "r3k2r/Pppp1ppp/1b3nbN/nP6/BBP1P3/q4N2/Pp1P2PP/R2Q1RK1 w kq -";
const MIRRORED: &str = "r2q1rk1/pP1p2pp/Q4n2/bbp1p3/Np6/1B3NBn/pPPP1PPP/R3K2R b KQ -";
const TALKCHESS: &str = "rnbq1k1r/pp1Pbppp/2p5/8/2B5/8/PPP1NnPP/RNBQK2R w KQ - 1 8";
const MIDDLEGAME: &str = "r4rk1/1pp1qppp/p1np1n2/2b1p1B1/2B1P1b1/P1NP1N2/1PP1QPPP/R4RK1 w - - 0 10";

#[test]
fn perft_depth_zero_is_one() {
    assert_eq!(perft(&playable(START), 0), 1);
    assert_eq!(try_perft(&playable(KIWIPETE), 0), Some(1));
}

#[test]
fn perft_start_shallow() {
    let pos = playable(START);
    assert_eq!(perft(&pos, 1), 20);
    assert_eq!(perft(&pos, 2), 400);
    assert_eq!(perft(&pos, 3), 8_902);
    assert_eq!(perft(&pos, 4), 197_281);
    assert_eq!(try_perft(&pos, 4), Some(197_281));
}

#[test]
fn perft_start_depth_5() {
    assert_eq!(perft(&playable(START), 5), 4_865_609);
}

#[test]
fn perft_start_depth_6() {
    assert_eq!(perft(&playable(START), 6), 119_060_324);
}

#[test]
fn perft_kiwipete_shallow() {
    let pos = playable(KIWIPETE);
    assert_eq!(perft(&pos, 1), 48);
    assert_eq!(perft(&pos, 2), 2_039);
    assert_eq!(perft(&pos, 3), 97_862);
    assert_eq!(perft(&pos, 4), 4_085_603);
}

#[test]
fn perft_kiwipete_depth_5() {
    assert_eq!(perft(&playable(KIWIPETE), 5), 193_690_690);
}

#[test]
fn perft_endgame_shallow() {
    let pos = playable(ENDGAME);
    assert_eq!(perft(&pos, 1), 14);
    assert_eq!(perft(&pos, 2), 191);
    assert_eq!(perft(&pos, 3), 2_812);
    assert_eq!(perft(&pos, 4), 43_238);
    assert_eq!(perft(&pos, 5), 674_624);
    assert_eq!(perft(&pos, 6), 11_030_083);
}

#[test]
fn perft_endgame_depth_7() {
    assert_eq!(perft(&playable(ENDGAME), 7), 178_633_661);
}

#[test]
fn perft_promotions_shallow() {
    let pos = playable(PROMOTIONS);
    assert_eq!(perft(&pos, 1), 6);
    assert_eq!(perft(&pos, 2), 264);
    assert_eq!(perft(&pos, 3), 9_467);
    assert_eq!(perft(&pos, 4), 422_333);
}

#[test]
fn perft_promotions_depth_5() {
    assert_eq!(perft(&playable(PROMOTIONS), 5), 15_833_292);
}

#[test]
fn perft_promotions_mirrored() {
    let pos = playable(MIRRORED);
    assert_eq!(perft(&pos, 1), 6);
    assert_eq!(perft(&pos, 2), 264);
    assert_eq!(perft(&pos, 3), 9_467);
    assert_eq!(perft(&pos, 4), 422_333);
    assert_eq!(perft(&pos, 5), 15_833_292);
}

#[test]
fn perft_talkchess() {
    let pos = playable(TALKCHESS);
    assert_eq!(perft(&pos, 1), 44);
    assert_eq!(perft(&pos, 2), 1_486);
    assert_eq!(perft(&pos, 3), 62_379);
    assert_eq!(perft(&pos, 4), 2_103_487);
    assert_eq!(perft(&pos, 5), 89_941_194);
}

#[test]
fn perft_middlegame() {
    let pos = playable(MIDDLEGAME);
    assert_eq!(perft(&pos, 1), 46);
    assert_eq!(perft(&pos, 2), 2_079);
    assert_eq!(perft(&pos, 3), 89_890);
    assert_eq!(perft(&pos, 4), 3_894_594);
    assert_eq!(perft(&pos, 5), 164_075_551);
}

#[test]
fn perft_by_trial_counts_the_same() {
    assert_eq!(perft_by_trial(&playable(START), 4), 197_281);
    assert_eq!(perft_by_trial(&playable(KIWIPETE), 3), 97_862);
    assert_eq!(perft_by_trial(&playable(ENDGAME), 5), 674_624);
    assert_eq!(perft_by_trial(&playable(PROMOTIONS), 4), 422_333);
    assert_eq!(perft_by_trial(&playable(TALKCHESS), 3), 62_379);
}
