use rand::rngs::StdRng;
use rand::{RngCore, SeedableRng};
use shenyu::board_state::board::Board;
use shenyu::board_state::zobrist::Zobrist;
use shenyu::move_generation::action::Action;
use shenyu::move_generation::action::Move;
use shenyu::move_generation::action::{CASTLE, NORMAL, PASSANT, PROMOTION};
use shenyu::move_generation::masks::{king_attacks_from, knight_attacks_from};
use shenyu::testing::perft::PerftEntry;

const START: &str = "rnbqkbnr/pppppppp/8/8/8/8/PPPPPPPP/RNBQKBNR w KQkq - 0 1";
const KIWIPETE: &str = "r3k2r/p1ppqpb1/bn2pnp1/3PN3/1p2P3/2N2Q1p/PPPBBPPP/R3K2R w KQkq - 0 1";

fn find(b: &mut Board, z: &Zobrist, name: &str) -> Move {
    let moves = b.generate_moves::<true, true>(z);
    for i in 0..moves.length {
        let m = moves.items[i];
        if m.to_algebraic() == name {
            return m;
        }
    }
    panic!("move {} not generated", name);
}

#[test]
fn start_position_parses() {
    let z = Zobrist::new();
    let b = Board::parse_fen(START, &z).unwrap();
    assert_eq!(b.get_occupancy().count_ones(), 32);
    assert!(!b.tomove);
    assert_eq!(b.castling_rights, 15);
    assert_eq!(b.passant_square, None);
    assert_eq!(b.halfmove_clock, 0);
    assert_eq!(b.zobrist_key, b.generate_zobrist(&z));
    assert_eq!(b.get_at_square(4), 6);
    assert_eq!(b.get_at_square(59), 5);
    assert!(b.is_color(0, false));
    assert!(b.is_color(63, true));
}

#[test]
fn fen_errors_name_the_field() {
    let z = Zobrist::new();
    assert_eq!(Board::parse_fen("rnbqkbnr/ppppxppp/8/8/8/8/PPPPPPPP/RNBQKBNR w KQkq - 0 1", &z).err(), Some(0));
    assert_eq!(Board::parse_fen("rnbqkbnr/pppppppp/8/8/8/8/PPPPPPPP/RNBQKBNR x KQkq - 0 1", &z).err(), Some(1));
    assert_eq!(Board::parse_fen("rnbqkbnr/pppppppp/8/8/8/8/PPPPPPPP/RNBQKBNR w XYZ - 0 1", &z).err(), Some(2));
    assert_eq!(Board::parse_fen("rnbqkbnr/pppppppp/8/8/8/8/PPPPPPPP/RNBQKBNR w KQkq z9 0 1", &z).err(), Some(3));
    assert_eq!(Board::parse_fen("rnbqkbnr/pppppppp/8/8/8/8/PPPPPPPP/RNBQKBNR w KQkq - x 1", &z).err(), Some(0));
    assert_eq!(Board::parse_fen("rnbqkbnr/pppppppp/8/8/8/8/PPPPPPPP/RNBQKBNR w KQkq - 0 1 7", &z).err(), Some(6));
    assert_eq!(Board::parse_fen("9/8/8/8/8/8/8/8 w - - 0 1", &z).err(), Some(0));
}

#[test]
fn fen_field_values() {
    let z = Zobrist::new();
    let b = Board::parse_fen("4k3/8/8/3pP3/8/8/8/4K3 w - d6 12 1", &z).unwrap();
    assert_eq!(b.passant_square, Some(43));
    assert_eq!(b.halfmove_clock, 12);
    assert_eq!(b.castling_rights, 0);
    let b = Board::parse_fen("4k3/8/8/8/8/8/8/4K3 b Kq - +7 1", &z).unwrap();
    assert!(b.tomove);
    assert_eq!(b.castling_rights, 9);
    assert_eq!(b.halfmove_clock, 7);
}

#[test]
fn start_has_twenty_moves() {
    let z = Zobrist::new();
    let mut b = Board::parse_fen(START, &z).unwrap();
    let moves = b.generate_moves::<true, true>(&z);
    assert_eq!(moves.length, 20);
    let captures = b.generate_moves::<false, true>(&z);
    assert_eq!(captures.length, 0);
}

#[test]
fn do_move_double_push_sets_en_passant_and_keeps_the_hash() {
    let z = Zobrist::new();
    let mut b = Board::parse_fen(START, &z).unwrap();
    let m = find(&mut b, &z, "e2e4");
    let n = b.do_move(m, &z);
    assert!(n.tomove);
    assert_eq!(n.passant_square, Some(20));
    assert_eq!(n.get_at_square(28), 1);
    assert_eq!(n.get_at_square(12), 0);
    assert_eq!(n.zobrist_key, n.generate_zobrist(&z));
    assert_eq!(n.evaluator, n.generate_eval());
    assert_eq!(n.halfmove_clock, 0);
}

#[test]
fn castling_moves_the_rook_and_drops_rights() {
    let z = Zobrist::new();
    let mut b = Board::parse_fen("r3k2r/8/8/8/8/8/8/R3K2R w KQkq - 3 1", &z).unwrap();
    let m = find(&mut b, &z, "e1g1");
    assert_eq!(m.move_type(), CASTLE);
    let n = b.do_move(m, &z);
    assert_eq!(n.get_at_square(6), 6);
    assert_eq!(n.get_at_square(5), 4);
    assert_eq!(n.get_at_square(7), 0);
    assert_eq!(n.castling_rights, 3);
    assert_eq!(n.halfmove_clock, 4);
    assert_eq!(n.zobrist_key, n.generate_zobrist(&z));
}

#[test]
fn en_passant_and_promotion() {
    let z = Zobrist::new();
    let mut b = Board::parse_fen("4k3/1P6/8/3pP3/8/8/8/4K3 w - d6 0 1", &z).unwrap();
    let ep = find(&mut b, &z, "e5d6");
    assert_eq!(ep.move_type(), PASSANT);
    let n = b.do_move(ep, &z);
    assert_eq!(n.get_at_square(35), 0);
    assert_eq!(n.get_at_square(43), 1);
    let promo = find(&mut b, &z, "b7b8q");
    assert_eq!(promo.move_type(), PROMOTION);
    let n = b.do_move(promo, &z);
    assert_eq!(n.get_at_square(57), 5);
    assert_eq!(n.zobrist_key, n.generate_zobrist(&z));
    assert_eq!(n.evaluator, n.generate_eval());
}

#[test]
fn perft_start_position() {
    let z = Zobrist::new();
    let mut b = Board::parse_fen(START, &z).unwrap();
    assert_eq!(b.perft(0, &z), Some(1));
    assert_eq!(b.perft(1, &z), Some(20));
    assert_eq!(b.perft(2, &z), Some(400));
    assert_eq!(b.perft(3, &z), Some(8902));
}

#[test]
fn perft_kiwipete() {
    let z = Zobrist::new();
    let mut b = Board::parse_fen(KIWIPETE, &z).unwrap();
    assert_eq!(b.perft(1, &z), Some(48));
    assert_eq!(b.perft(2, &z), Some(2039));
}

#[test]
fn hashed_perft_agrees() {
    let z = Zobrist::new();
    let mut b = Board::parse_fen(START, &z).unwrap();
    let mut tt = vec![PerftEntry { key: 0, depth: 0, nodecount: 0 }; 1024];
    assert_eq!(b.hashed_perft(3, &mut tt, &z), Some(8902));
    assert_eq!(b.hashed_perft(3, &mut tt, &z), Some(8902));
}

#[test]
fn check_and_attacks() {
    let z = Zobrist::new();
    let b = Board::parse_fen("4k3/8/8/8/8/8/4r3/4K3 w - - 0 1", &z).unwrap();
    assert!(b.incheck(false));
    assert!(!b.incheck(true));
    assert!(b.is_attacked(4, true));
    assert!(b.is_attacked(3, false));
    assert!(!b.is_attacked(40, false));
    assert_eq!(b.check_for_legalmoves(), 1u64 << 12);
}

#[test]
fn pins_are_found() {
    let z = Zobrist::new();
    let b = Board::parse_fen("4k3/8/8/8/4r3/8/4N3/4K3 w - - 0 1", &z).unwrap();
    let pins = b.generate_rook_pins();
    assert_ne!(pins & (1u64 << 12), 0);
    assert_ne!(pins & (1u64 << 28), 0);
    assert_eq!(b.generate_bishop_pins(), 0);
}

#[test]
fn masks_from_corner() {
    assert_eq!(king_attacks_from(0), 0x302);
    assert_eq!(knight_attacks_from(0), 0x20400);
}

#[test]
fn zobrist_keys_are_reproducible() {
    let a = Zobrist::new();
    let b = Zobrist::new();
    assert_eq!(a.piece_squares, b.piece_squares);
    assert_ne!(a.active_color, 0);
}

#[test]
fn move_encoding_round_trip() {
    let m = <Move as Action>::new_move(12, 28, NORMAL, 1);
    assert_eq!(m.move_from(), 12);
    assert_eq!(m.move_to(), 28);
    assert_eq!(m.move_type(), NORMAL);
    assert_eq!(m.piece_moved(), 1);
    assert_eq!(m.to_algebraic(), "e2e4");
    let mut p = <Move as Action>::new_move(52, 60, PROMOTION, 1);
    p.set_pr_piece(5);
    assert_eq!(p.to_algebraic(), "e7e8q");
    p.set_capture();
    assert!(p.is_capture());
    assert_eq!(p.promote_to(), 5);
}

#[test]
fn generated_moves_leave_the_king_safe() {
    let z = Zobrist::new();
    let fens = [
        START,
        KIWIPETE,
        "8/2p5/3p4/KP5r/1R3p1k/8/4P1P1/8 w - - 0 1",
        "r3k2r/Pppp1ppp/1b3nbN/nP6/BBP1P3/q4N2/Pp1P2PP/R2Q1RK1 w kq - 0 1",
        "rnbq1k1r/pp1Pbppp/2p5/8/2B5/8/PPP1NnPP/RNBQK2R w KQ - 1 8",
        "4k3/8/8/2KPp2r/8/8/8/8 w - e6 0 1",
        "4k3/4r3/8/8/4B3/8/4K3/8 w - - 0 1",
        "4k3/8/8/8/b7/8/2P5/3K4 w - - 0 1",
        "4k3/8/8/8/7b/8/5P2/4K3 w - - 0 1",
        "4k3/4q3/8/8/8/8/4P3/4K3 w - - 0 1",
    ];
    for fen in fens {
        let mut b = Board::parse_fen(fen, &z).unwrap();
        let moves = b.generate_moves::<true, true>(&z);
        assert!(moves.length > 0);
        for i in 0..moves.length {
            let n = b.do_move(moves.items[i], &z);
            assert!(!n.incheck(b.tomove), "{} leaves the king attacked in {}", moves.items[i].to_algebraic(), fen);
        }
    }
}

#[test]
fn pinned_pieces_move_only_along_the_pin() {
    let z = Zobrist::new();
    // the rook on e7 pins the bishop on e4: the bishop has no move
    let mut b = Board::parse_fen("4k3/4r3/8/8/4B3/8/4K3/8 w - - 0 1", &z).unwrap();
    let moves = b.generate_moves::<true, true>(&z);
    for i in 0..moves.length {
        assert_eq!(moves.items[i].move_from(), 12, "{}", moves.items[i].to_algebraic());
    }
    // the queen on e7 pins the pawn on e2: it may still push
    let mut b = Board::parse_fen("4k3/4q3/8/8/8/8/4P3/4K3 w - - 0 1", &z).unwrap();
    let moves = b.generate_moves::<true, true>(&z);
    let names: Vec<String> = (0..moves.length).map(|i| moves.items[i].to_algebraic()).collect();
    assert!(names.contains(&"e2e3".to_string()));
    assert!(names.contains(&"e2e4".to_string()));
    // the bishop on a4 pins the pawn on c2 to the king on d1: it may not push
    let mut b = Board::parse_fen("4k3/8/8/8/b7/8/2P5/3K4 w - - 0 1", &z).unwrap();
    let moves = b.generate_moves::<true, true>(&z);
    for i in 0..moves.length {
        assert_ne!(moves.items[i].move_from(), 10, "{}", moves.items[i].to_algebraic());
    }
}

#[test]
fn parse_move_plays_only_a_generated_move() {
    let z = Zobrist::new();
    let mut b = Board::parse_fen(START, &z).unwrap();
    let before = b;
    assert_eq!(b.parse_move(&"e2e5".chars().collect(), &z), None);
    assert_eq!(b.get_occupancy(), before.get_occupancy());
    assert_eq!(b.parse_move(&"e2e4".chars().collect(), &z), Some(()));
    assert!(b.tomove);
}

#[test]
fn zobrist_keys_are_the_seeded_stream() {
    let z = Zobrist::new();
    let mut rng = StdRng::from_seed(shenyu::board_state::zobrist::SEED);
    let stream: Vec<u64> = (0..849).map(|_| rng.next_u64()).collect();
    assert_eq!(z.piece_squares, stream[0..768].to_vec());
    assert_eq!(z.castling_rights, stream[768..784].to_vec());
    assert_eq!(z.ep_square, stream[784..848].to_vec());
    assert_eq!(z.active_color, stream[848]);
    assert!(stream.iter().all(|&k| k != 0));
}

#[test]
fn attack_mask_agrees_with_attackers() {
    let z = Zobrist::new();
    for fen in [START, KIWIPETE, "4k3/8/8/2KPp2r/8/8/8/8 w - e6 0 1"] {
        let b = Board::parse_fen(fen, &z).unwrap();
        for c in [false, true] {
            let mask = b.generate_atk_mask(c, b.get_occupancy());
            for sq in 0u8..64 {
                assert_eq!(b.is_attacked(sq, c), (mask >> sq) & 1 == 1, "{} {}", fen, sq);
            }
        }
    }
}

#[test]
fn set_then_remove_restores_the_board() {
    let z = Zobrist::new();
    let b = Board::parse_fen(KIWIPETE, &z).unwrap();
    let mut b2 = b;
    b2.set_piece(24, 5, true, &z);
    assert_ne!(b2.zobrist_key, b.zobrist_key);
    assert_ne!(b2.pieces, b.pieces);
    b2.remove_piece(24, 5, true, &z);
    assert_eq!(b2, b);
}

#[test]
fn hashing_skips_a_piece_bit_without_a_color() {
    let z = Zobrist::new();
    let b = Board::parse_fen(START, &z).unwrap();
    let mut stray = b;
    stray.pieces[0] |= 1u64 << 40;
    assert_eq!(stray.generate_zobrist(&z), b.zobrist_key);
}
