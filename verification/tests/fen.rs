use chess_movegen::consts::Piece;
use chess_movegen::consts::Right;
use chess_movegen::consts::Side;
use chess_movegen::fen::parse_fen;
use chess_movegen::position::Position;

#[test]
fn start_position() {
    let pos = Position::parse_fen("rnbqkbnr/pppppppp/8/8/8/8/PPPPPPPP/RNBQKBNR w KQkq - 0 1");
    assert_eq!(pos.bb[Side::WHITE], 0x0000_0000_0000_FFFF);
    assert_eq!(pos.bb[Side::BLACK], 0xFFFF_0000_0000_0000);
    assert_eq!(pos.bb[Piece::PAWN], 0x00FF_0000_0000_FF00);
    assert_eq!(pos.bb[Piece::KNIGHT], 0x4200_0000_0000_0042);
    assert_eq!(pos.bb[Piece::BISHOP], 0x2400_0000_0000_0024);
    assert_eq!(pos.bb[Piece::ROOK], 0x8100_0000_0000_0081);
    assert_eq!(pos.bb[Piece::QUEEN], 0x0800_0000_0000_0008);
    assert_eq!(pos.bb[Piece::KING], 0x1000_0000_0000_0010);
    assert!(!pos.stm);
    assert_eq!(pos.rights, Right::WKS | Right::WQS | Right::BKS | Right::BQS);
    assert_eq!(pos.enp_sq, 0);
}

#[test]
fn side_rights_and_square() {
    let pos = Position::parse_fen("rnbqkbnr/pppppppp/8/8/4P3/8/PPPP1PPP/RNBQKBNR b Kq e3 0 1");
    assert!(pos.stm);
    assert_eq!(pos.rights, Right::WKS | Right::BQS);
    assert_eq!(pos.enp_sq, 20);
    let other = Position::parse_fen("4k3/8/8/2pP4/8/8/8/4K3 w - c6");
    assert_eq!(other.enp_sq, 42);
    assert!(!other.stm);
    assert_eq!(other.rights, 0);
    assert_eq!(Position::parse_fen("4k3/8/8/8/8/8/8/4K3 w - a3").enp_sq, 16);
    assert_eq!(Position::parse_fen("4k3/8/8/8/8/8/8/4K3 w - h6").enp_sq, 47);
}

#[test]
fn digits_skip_files() {
    let pos = Position::parse_fen("8/8/8/8/3Q4/8/8/k1K5 w - -");
    assert_eq!(pos.bb[Piece::QUEEN], 1 << 27);
    assert_eq!(pos.bb[Piece::KING], (1 << 0) | (1 << 2));
    assert_eq!(pos.bb[Side::BLACK], 1 << 0);
    assert_eq!(pos.bb[Side::WHITE], (1 << 27) | (1 << 2));
}

#[test]
fn missing_fields_stay_empty() {
    let pos = Position::parse_fen("4k3/8/8/8/8/8/8/4K3");
    assert_eq!(pos.bb[Piece::KING], (1 << 4) | (1 << 60));
    assert!(!pos.stm);
    assert_eq!(pos.rights, 0);
    assert_eq!(pos.enp_sq, 0);
    let empty = Position::parse_fen("");
    assert_eq!(empty.bb, [0; 8]);
    let blank = Position::parse_fen("   ");
    assert_eq!(blank.bb, [0; 8]);
}

#[test]
fn white_space_between_fields() {
    let pos = Position::parse_fen("  4k3/8/8/8/8/8/8/4K3 \t b   - \n -  ");
    assert_eq!(pos.bb[Piece::KING], (1 << 4) | (1 << 60));
    assert!(pos.stm);
}

#[test]
fn what_falls_off_the_board_is_dropped() {
    // nine pieces on a rank: the ninth is dropped
    let wide = Position::parse_fen("8/8/8/8/8/8/8/RRRRRRRRR w - -");
    assert_eq!(wide.bb[Piece::ROOK], 0xFF);
    // nine ranks: the ninth is dropped
    let tall = Position::parse_fen("8/8/8/8/8/8/8/8/RRRRRRRR w - -");
    assert_eq!(tall.bb, [0; 8]);
    // a square that is none
    assert_eq!(Position::parse_fen("8/8/8/8/8/8/8/8 w - z9").enp_sq, 0);
    assert_eq!(Position::parse_fen("8/8/8/8/8/8/8/8 w - e").enp_sq, 0);
}

#[test]
fn other_letters_count_as_black_pawns() {
    let pos = Position::parse_fen("8/8/8/8/8/8/8/x7 w - -");
    assert_eq!(pos.bb[Piece::PAWN], 1);
    assert_eq!(pos.bb[Side::BLACK], 1);
}

#[test]
fn free_function_reads_the_same() {
    let text = "r3k2r/p1ppqpb1/bn2pnp1/3PN3/1p2P3/2N2Q1p/PPPBBPPP/R3K2R w KQkq -";
    let a = Position::parse_fen(text);
    let b = parse_fen(text);
    assert_eq!(a.bb, b.bb);
    assert_eq!(a.stm, b.stm);
    assert_eq!(a.rights, b.rights);
    assert_eq!(a.enp_sq, b.enp_sq);
}
