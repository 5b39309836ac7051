use chess_movegen::attacks::batt;
use chess_movegen::attacks::ratt;
use chess_movegen::attacks::Attacks;
use chess_movegen::bits::pop_lsb;
use chess_movegen::bits::swap_bytes;
use chess_movegen::geometry::in_between;
use chess_movegen::geometry::line_through;

/// Walks from `sq` in one direction until the edge or the first occupied
/// square, which it still takes.
fn walk(sq: usize, occ: u64, df: i32, dr: i32) -> u64 {
    let mut f = (sq % 8) as i32 + df;
    let mut r = (sq / 8) as i32 + dr;
    let mut seen = 0u64;
    while (0..8).contains(&f) && (0..8).contains(&r) {
        let bit = 1u64 << (8 * r + f);
        seen |= bit;
        if occ & bit != 0 {
            break;
        }
        f += df;
        r += dr;
    }
    seen
}

fn rook_walk(sq: usize, occ: u64) -> u64 {
    walk(sq, occ, 1, 0) | walk(sq, occ, -1, 0) | walk(sq, occ, 0, 1) | walk(sq, occ, 0, -1)
}

fn bishop_walk(sq: usize, occ: u64) -> u64 {
    walk(sq, occ, 1, 1) | walk(sq, occ, -1, 1) | walk(sq, occ, 1, -1) | walk(sq, occ, -1, -1)
}

fn next_random(state: &mut u64) -> u64 {
    *state ^= *state << 13;
    *state ^= *state >> 7;
    *state ^= *state << 17;
    *state
}

#[test]
fn sliders_equal_the_ray_walk() {
    let mut state = 0x9E37_79B9_7F4A_7C15u64;
    for round in 0..4000 {
        let mut occ = next_random(&mut state);
        if round % 3 == 1 {
            occ &= next_random(&mut state);
        }
        if round % 3 == 2 {
            occ &= next_random(&mut state) & next_random(&mut state);
        }
        for sq in 0..64 {
            assert_eq!(Attacks::rook(sq, occ), rook_walk(sq, occ));
            assert_eq!(Attacks::bishop(sq, occ), bishop_walk(sq, occ));
            assert_eq!(Attacks::queen(sq, occ), rook_walk(sq, occ) | bishop_walk(sq, occ));
            assert_eq!(ratt(sq, occ), rook_walk(sq, occ));
            assert_eq!(batt(sq, occ), bishop_walk(sq, occ));
        }
    }
}

#[test]
fn sliders_on_empty_and_full_boards() {
    for sq in 0..64 {
        for occ in [0u64, u64::MAX, 1u64 << sq, !(1u64 << sq)] {
            assert_eq!(Attacks::rook(sq, occ), rook_walk(sq, occ));
            assert_eq!(Attacks::bishop(sq, occ), bishop_walk(sq, occ));
            assert_eq!(ratt(sq, occ), rook_walk(sq, occ));
        }
    }
}

#[test]
fn rook_stops_at_the_first_piece() {
    // rook on d4, pieces on d6 and f4
    let occ = (1u64 << 43) | (1u64 << 29);
    let expected = (1u64 << 35) | (1u64 << 43) | (1u64 << 19) | (1u64 << 11) | (1u64 << 3)
        | (1u64 << 28) | (1u64 << 29) | (1u64 << 26) | (1u64 << 25) | (1u64 << 24);
    assert_eq!(Attacks::rook(27, occ), expected);
}

#[test]
fn bishop_stops_at_the_first_piece() {
    // bishop on c1, piece on e3
    let occ = 1u64 << 20;
    let expected = (1u64 << 11) | (1u64 << 20) | (1u64 << 9) | (1u64 << 16);
    assert_eq!(Attacks::bishop(2, occ), expected);
}

#[test]
fn knight_in_the_corner() {
    assert_eq!(Attacks::knight(0), (1u64 << 10) | (1u64 << 17));
    assert_eq!(Attacks::knight(63), (1u64 << 46) | (1u64 << 53));
}

#[test]
fn knight_in_the_middle() {
    let expected = (1u64 << 10) | (1u64 << 12) | (1u64 << 17) | (1u64 << 21) | (1u64 << 33)
        | (1u64 << 37) | (1u64 << 42) | (1u64 << 44);
    assert_eq!(Attacks::knight(27), expected);
}

#[test]
fn king_neighbours() {
    assert_eq!(Attacks::king(0), (1u64 << 1) | (1u64 << 8) | (1u64 << 9));
    assert_eq!(Attacks::king(7), (1u64 << 6) | (1u64 << 14) | (1u64 << 15));
    assert_eq!(Attacks::king(27).count_ones(), 8);
}

#[test]
fn pawn_attacks_by_side() {
    // white pawn on e4 attacks d5 and f5, black pawn on e4 attacks d3 and f3
    assert_eq!(Attacks::pawn(28, 0), (1u64 << 35) | (1u64 << 37));
    assert_eq!(Attacks::pawn(28, 1), (1u64 << 19) | (1u64 << 21));
    // on the edge files only one square is attacked
    assert_eq!(Attacks::pawn(24, 0), 1u64 << 33);
    assert_eq!(Attacks::pawn(31, 1), 1u64 << 22);
    // nothing lies ahead of the last rank
    assert_eq!(Attacks::pawn(60, 0), 0);
    assert_eq!(Attacks::pawn(4, 1), 0);
}

#[test]
fn xray_sees_through_one_blocker() {
    // rook on a1, own piece on a3, enemy on a6: the x-ray reaches a4, a5, a6
    let blockers = 1u64 << 16;
    let occ = blockers | (1u64 << 40);
    assert_eq!(Attacks::xray_rook(0, occ, blockers), (1u64 << 24) | (1u64 << 32) | (1u64 << 40));
    // a second piece in the way hides what lies behind
    let occ2 = occ | (1u64 << 24);
    assert_eq!(Attacks::xray_rook(0, occ2, blockers), 1u64 << 24);
    // bishop on a1, own piece on c3, enemy on f6
    let blockers = 1u64 << 18;
    let occ = blockers | (1u64 << 45);
    assert_eq!(
        Attacks::xray_bishop(0, occ, blockers),
        (1u64 << 27) | (1u64 << 36) | (1u64 << 45)
    );
}

#[test]
fn squares_in_between() {
    assert_eq!(in_between(0, 7), 0x7E);
    assert_eq!(in_between(7, 0), 0x7E);
    assert_eq!(in_between(0, 63), 0x0040_2010_0804_0200);
    assert_eq!(in_between(7, 56), 0x0002_0408_1020_4000);
    assert_eq!(in_between(4, 60), 0x0010_1010_1010_1000);
    assert_eq!(in_between(0, 1), 0);
    assert_eq!(in_between(0, 10), 0);
    assert_eq!(in_between(12, 12), 0);
}

#[test]
fn lines_through_two_squares() {
    assert_eq!(line_through(0, 7), 0xFF);
    assert_eq!(line_through(1, 57), 0x0202_0202_0202_0202);
    assert_eq!(line_through(9, 18), 0x8040_2010_0804_0201);
    assert_eq!(line_through(14, 21), 0x0102_0408_1020_4080);
    assert_eq!(line_through(0, 10), 0);
    assert_eq!(line_through(5, 5), 0);
}

#[test]
fn lowest_square_is_popped() {
    let mut set = 0b1011_0000u64;
    assert_eq!(pop_lsb(&mut set), 4);
    assert_eq!(set, 0b1010_0000);
    assert_eq!(pop_lsb(&mut set), 5);
    assert_eq!(pop_lsb(&mut set), 7);
    assert_eq!(set, 0);
}

#[test]
fn bytes_are_swapped() {
    assert_eq!(swap_bytes(0x0102_0304_0506_0708), 0x0807_0605_0403_0201);
    let mut state = 7u64;
    for _ in 0..1000 {
        let x = next_random(&mut state);
        assert_eq!(swap_bytes(x), x.swap_bytes());
    }
}
