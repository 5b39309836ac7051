use chess_movegen::epd::PerftResult;
use chess_movegen::perft::perft;
use chess_movegen::position::Position;

#[test]
fn line_of_results() {
    let line = "rnbqkbnr/pppppppp/8/8/8/8/PPPPPPPP/RNBQKBNR w KQkq - 0 1 ;D1 20 ;D2 400 ;D3 8902";
    let known = PerftResult::from_epd(line);
    assert_eq!(known.results, vec![20, 400, 8902]);
    let start = Position::parse_fen("rnbqkbnr/pppppppp/8/8/8/8/PPPPPPPP/RNBQKBNR w KQkq - 0 1");
    assert_eq!(known.pos.bb, start.bb);
    assert_eq!(known.pos.stm, start.stm);
    assert_eq!(known.pos.rights, start.rights);
    assert_eq!(known.pos.enp_sq, start.enp_sq);
    for (depth, &count) in known.results.iter().enumerate() {
        assert_eq!(perft(&known.pos, depth as u8 + 1), count);
    }
}

#[test]
fn line_without_results() {
    let known = PerftResult::from_epd("4k3/8/8/8/8/8/8/4K3 b - -");
    assert!(known.results.is_empty());
    assert!(known.pos.stm);
    assert_eq!(known.pos.bb[7], (1 << 4) | (1 << 60));
}

#[test]
fn words_that_are_no_counts() {
    // no second word, a word that is no number, an empty part
    let known = PerftResult::from_epd("8/8/8/8/8/8/8/8 w - - ;D1 ;D2 many ;;D4 7");
    assert_eq!(known.results, vec![0, 0, 0, 7]);
    // a part at the very end that is empty
    assert_eq!(PerftResult::from_epd("8/8/8/8/8/8/8/8 w - - ;D1 1;").results, vec![1, 0]);
    // a negative number, a number with letters
    assert_eq!(PerftResult::from_epd("x ;D1 -5 ;D2 12a").results, vec![0, 0]);
}

#[test]
fn plus_sign_and_large_numbers() {
    let known = PerftResult::from_epd("x ;D1 +5 ;D2 + ;D3 18446744073709551615");
    assert_eq!(known.results, vec![5, 0, u64::MAX]);
    // one more than fits
    assert_eq!(PerftResult::from_epd("x ;D1 18446744073709551616").results, vec![0]);
    assert_eq!(PerftResult::from_epd("x ;D1 99999999999999999999999").results, vec![0]);
    // leading zeros do not count
    assert_eq!(PerftResult::from_epd("x ;D1 000000000000000000000012").results, vec![12]);
}

#[test]
fn further_words_are_not_read() {
    let known = PerftResult::from_epd("x ;D1 20 30 ;  D2\t400  ");
    assert_eq!(known.results, vec![20, 400]);
}
