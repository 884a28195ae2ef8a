use shenyu::move_generation::action::Action;
use shenyu::move_generation::action::Move;
use shenyu::move_generation::action::{NORMAL, PROMOTION};
use shenyu::move_generation::list::List;
use shenyu::movegen::atks::{bishop_attacks, in_btwn_atks, king_attacks, knight_attacks, rook_attacks};
use shenyu::movegen::board::{Board, Castling};
use shenyu::movegen::fen::FenError;
use shenyu::movegen::movelist;
use shenyu::movegen::types::square;
use shenyu::movegen::types::{Color, Piece};
use shenyu::movegen::zobrist::ZobristContainer;
use shenyu::search::moveorder::OrderData;
use shenyu::search::searchcontrol::format_pv;

#[test]
fn new_board_is_the_start_position() {
    let z = ZobristContainer::new();
    let b = Board::new(&z);
    assert_eq!(b.get_piece(0), Piece::R);
    assert_eq!(b.get_piece(4), Piece::K);
    assert_eq!(b.get_piece(60), Piece::K);
    assert_eq!(b.get_piece(27), Piece::Empty);
    assert_eq!(b.active_color(), Color::W);
    assert_eq!(b.occupancy().count_ones(), 32);
    assert_eq!(b.evaluate(), 0);
    assert!(!b.is_draw());
    assert!(!b.is_kp());
}

#[test]
fn new_fen_errors() {
    let z = ZobristContainer::new();
    let mut b = Board::default();
    assert_eq!(b.parse_fen("", &z), Err(FenError::Invalid));
    assert_eq!(b.parse_fen("8/8/8/8/8/8/8/8 x - - 0", &z), Err(FenError::Invalid));
    assert_eq!(b.parse_fen("8/8/8/8/8/8/8/8 w KX - 0", &z), Err(FenError::Invalid));
    assert_eq!(b.parse_fen("8/8/8/8/8/8/8/8 w - e9 0", &z), Err(FenError::Invalid));
    assert_eq!(b.parse_fen("8/8/8/8/8/8/8/8 w - - 300", &z), Err(FenError::BadClock));
    assert_eq!(b.parse_fen("8/8/8/8/8/8/8/8 w - -", &z), Err(FenError::Invalid));
    assert_eq!(b.parse_fen("8/8/8/8/8/8/8/8 w - - 0", &z), Ok(()));
}

#[test]
fn new_fen_sets_the_fields() {
    let z = ZobristContainer::new();
    let mut b = Board::default();
    assert_eq!(b.parse_fen("4k3/8/8/3pP3/8/8/8/4K3 b Kq d6 9", &z), Ok(()));
    assert_eq!(b.active_color(), Color::B);
    assert_eq!(b.get_piece(35), Piece::P);
    assert!(b.is_color(35, Color::B));
    assert!(b.is_color(36, Color::W));
    assert_eq!(b.passant_square(), Some(43));
    assert_eq!(b.halfmove_clock(), 9);
    assert!(*b.castling(Castling::WK));
    assert!(!*b.castling(Castling::WQ));
    assert!(!*b.castling(Castling::BK));
    assert!(*b.castling(Castling::BQ));
}

#[test]
fn repetition_needs_four_halfmoves() {
    let z = ZobristContainer::new();
    let b = Board::new(&z);
    assert!(!b.is_repetition(1));
}

#[test]
fn attack_sets() {
    assert_eq!(king_attacks(0), 0x302);
    assert_eq!(knight_attacks(0), 0x20400);
    assert_eq!(rook_attacks(0, 0), 0x1010101010101fe);
    assert_eq!(bishop_attacks(0, 0), 0x8040201008040200);
    assert_eq!(rook_attacks(0, 1u64 << 8), 0x1fe);
    assert_eq!(bishop_attacks(0, 1u64 << 18), 0x40200);
    assert_eq!(in_btwn_atks(0, 63), 0x0040201008040200);
    assert_eq!(in_btwn_atks(0, 7), 0x7e);
    assert_eq!(in_btwn_atks(0, 10), 0);
}

#[test]
fn square_names() {
    assert_eq!(square::from_algebraic("e4"), Some(28));
    assert_eq!(square::from_algebraic("e44"), None);
    assert_eq!(square::from_algebraic("i1"), None);
    assert_eq!(square::name(28), "e4");
    assert_eq!(square::flip_v(0), 56);
    assert_eq!(square::flip_h(0), 7);
    assert_eq!(square::rank_of(28), 3);
    assert_eq!(square::file_of(28), 4);
}

#[test]
fn movelist_sorting_picks_the_best() {
    let mut l: movelist::List<i16, 4> = movelist::List::new();
    l.push(3);
    l.push(9);
    l.push(5);
    l.push(7);
    l.push(1);
    assert_eq!(l.len(), 4);
    assert_eq!(l.partial_insertion_sort(0, |x| *x), Some(9));
    assert_eq!(l.iter(), vec![9, 3, 5, 7]);
    assert_eq!(l.partial_insertion_sort(1, |x| *x), Some(7));
    assert_eq!(l.partial_insertion_sort(4, |x| *x), None);
    assert_eq!(l.partial_insertion_sort(2, |_| i16::MIN), None);
    l.shrink(2);
    assert_eq!(l.iter(), vec![9, 7]);
    l.clear();
    assert_eq!(l.len(), 0);
}

#[test]
fn see_and_mvv_lva() {
    let z = ZobristContainer::new();
    let mut b = Board::default();
    assert_eq!(b.parse_fen("4k3/8/3p4/4p3/3P4/8/8/4K3 w - - 0", &z), Ok(()));
    let capture = <Move as Action>::new_move(27, 36, NORMAL, 1);
    assert_eq!(b.mvv_lva(capture), 100 - 12);
    assert_eq!(b.see(capture), 0);
    assert_eq!(b.parse_fen("4k3/8/8/4p3/3P4/8/8/4K3 w - - 0", &z), Ok(()));
    assert_eq!(b.see(capture), 100);
    let promo = <Move as Action>::new_move(52, 60, PROMOTION, 1) | (3u32 << 14);
    assert_eq!(b.see(promo), 900);
}

#[test]
fn order_data() {
    let mut o = OrderData::new();
    o.update_killer(7, 3);
    o.update_killer(9, 3);
    o.update_killer(9, 3);
    assert_eq!(o.killers[3], [9, 7]);
    let z = ZobristContainer::new();
    let b = Board::new(&z);
    let m = <Move as Action>::new_move(12, 28, NORMAL, 1);
    o.update_history(m, 10, &b);
    assert_eq!(o.get_history(Piece::P, Color::W, 28), 100);
    o.update_history(m, 180, &b);
    assert_eq!(o.get_history(Piece::P, Color::W, 28), 32000);
    o.age_history();
    assert_eq!(o.get_history(Piece::P, Color::W, 28), 16000);
    o.clear();
    assert_eq!(o.get_history(Piece::P, Color::W, 28), 0);
    o.update_history(m, 200, &b);
    assert_eq!(o.get_history(Piece::P, Color::W, 28), -25536);
}

#[test]
fn principal_variation_text() {
    let mut pv: List<Move, 64> = List::new();
    pv.push(<Move as Action>::new_move(12, 28, NORMAL, 1));
    pv.push(<Move as Action>::new_move(52, 36, NORMAL, 1));
    assert_eq!(format_pv(&pv), " e2e4 e7e5");
}

#[test]
fn see_values_each_recapture_at_the_piece_that_makes_it() {
    let z = ZobristContainer::new();
    let mut b = Board::default();
    // rook d1 takes the knight on d5; the bishop f7 takes back, the pawn e4 takes the bishop
    assert_eq!(b.parse_fen("7k/5b2/8/3n4/4P3/8/8/3R3K w - - 0", &z), Ok(()));
    let capture = <Move as Action>::new_move(3, 35, NORMAL, 4);
    assert_eq!(b.see(capture), 100);
    // without the pawn the rook is lost for the knight
    assert_eq!(b.parse_fen("7k/5b2/8/3n4/8/8/8/3R3K w - - 0", &z), Ok(()));
    assert_eq!(b.see(capture), -200);
}

#[test]
fn knight_attacks_are_symmetric() {
    assert_eq!(knight_attacks(0), 0x20400);
    assert_eq!(knight_attacks(27).count_ones(), 8);
    for a in 0u8..64 {
        for b in 0u8..64 {
            assert_eq!((knight_attacks(a) >> b) & 1, (knight_attacks(b) >> a) & 1);
        }
    }
}
