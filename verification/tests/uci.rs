use shenyu::board_state::board::Board;
use shenyu::board_state::zobrist::Zobrist;
use shenyu::testing::perft::{parse_perft_case, PerftCaseError, PerftEntry};
use shenyu::testing::perft_debugger::{compare_perft, parse_reference_line, MoveData, PerftCheck};
use shenyu::uci::{parse_position, read_position, PositionError, PositionStep};

const START: &str = "rnbqkbnr/pppppppp/8/8/8/8/PPPPPPPP/RNBQKBNR w KQkq - 0 1";

fn text(s: &str) -> Vec<char> {
    s.chars().collect()
}

#[test]
fn position_startpos_with_moves() {
    let z = Zobrist::new();
    let mut b = Board::parse_fen("8/8/8/8/8/8/8/K6k w - - 0 1", &z).unwrap();
    assert_eq!(parse_position(&mut b, "position startpos moves e2e4 e7e5 g1f3", &z), Ok(()));
    let expected = Board::parse_fen("rnbqkbnr/pppp1ppp/8/4p3/4P3/5N2/PPPP1PPP/RNBQKB1R b KQkq - 1 2", &z).unwrap();
    assert_eq!(b.pieces, expected.pieces);
    assert_eq!(b.colors, expected.colors);
    assert_eq!(b.tomove, expected.tomove);
    assert_eq!(b.zobrist_key, expected.zobrist_key);
}

#[test]
fn position_fen_without_moves() {
    let z = Zobrist::new();
    let mut b = Board::parse_fen(START, &z).unwrap();
    assert_eq!(parse_position(&mut b, "position fen 4k3/8/8/8/8/8/8/4K3 b - - 5 9", &z), Ok(()));
    let expected = Board::parse_fen("4k3/8/8/8/8/8/8/4K3 b - - 5 9", &z).unwrap();
    assert_eq!(b.pieces, expected.pieces);
    assert_eq!(b.halfmove_clock, 5);
    assert!(b.tomove);
}

#[test]
fn position_stops_at_an_illegal_move() {
    let z = Zobrist::new();
    let mut b = Board::parse_fen(START, &z).unwrap();
    assert_eq!(parse_position(&mut b, "position startpos moves e2e4 e2e4 d7d5", &z), Err(PositionError::BadMove));
    let after_e4 = Board::parse_fen("rnbqkbnr/pppppppp/8/8/4P3/8/PPPP1PPP/RNBQKBNR b KQkq e3 0 1", &z).unwrap();
    assert_eq!(b.pieces, after_e4.pieces);
    assert!(b.tomove);
}

#[test]
fn position_with_a_bad_fen() {
    let z = Zobrist::new();
    let mut b = Board::parse_fen(START, &z).unwrap();
    let before = b.pieces;
    match parse_position(&mut b, "position fen 4k3/8/8/8/8/8/8/4K3 x - - 0 1", &z) {
        Err(PositionError::Fen { strict: false, .. }) => {}
        other => panic!("unexpected {:?}", other),
    }
    assert_eq!(b.pieces, before);
    match parse_position(&mut b, "position fen 4k3/8/8/8/8/8/8/4K3 x - - 0 1 moves e1e2", &z) {
        Err(PositionError::Fen { strict: true, .. }) => {}
        other => panic!("unexpected {:?}", other),
    }
}

#[test]
fn position_fen_with_moves() {
    let z = Zobrist::new();
    let mut b = Board::parse_fen(START, &z).unwrap();
    assert_eq!(parse_position(&mut b, "position fen 4k3/8/8/8/8/8/8/4K3 w - - 0 1 moves e1d2 e8f7", &z), Ok(()));
    let expected = Board::parse_fen("8/5k2/8/8/8/8/3K4/8 w - - 2 2", &z).unwrap();
    assert_eq!(b.pieces, expected.pieces);
    assert_eq!(b.colors, expected.colors);
    assert!(!b.tomove);
}

#[test]
fn position_steps_read() {
    let steps = read_position("position startpos moves e2e4");
    assert_eq!(steps.len(), 2);
    match &steps[0] {
        PositionStep::Fen { text: t, strict } => {
            assert_eq!(*t, text(START));
            assert!(*strict);
        }
        _ => panic!("expected a FEN step"),
    }
    match &steps[1] {
        PositionStep::Play(w) => assert_eq!(*w, text("e2e4")),
        _ => panic!("expected a move step"),
    }
    let steps = read_position("position fen 8/8/8/8/8/8/8/K6k w - - 0 1");
    assert_eq!(steps.len(), 1);
    match &steps[0] {
        PositionStep::Fen { text: t, strict } => {
            assert_eq!(*t, text("8/8/8/8/8/8/8/K6k w - - 0 1"));
            assert!(!*strict);
        }
        _ => panic!("expected a FEN step"),
    }
    assert_eq!(read_position("position banana startpos").len(), 0);
}

#[test]
fn reference_lines() {
    let d = parse_reference_line("e2e4: 20").unwrap();
    assert_eq!(d.name, "e2e4");
    assert_eq!(d.count, 20);
    let d = parse_reference_line("a7a8q: 7: extra").unwrap();
    assert_eq!(d.name, "a7a8q");
    assert_eq!(d.count, 7);
    assert!(parse_reference_line("e2e4 20").is_none());
    assert!(parse_reference_line("e2e4: x").is_none());
    assert!(parse_reference_line("e2e4: 4294967296").is_none());
}

fn md(name: &str, count: u32) -> MoveData {
    MoveData { name: name.to_string(), count }
}

#[test]
fn perft_comparison() {
    let mine = vec![md("a2a3", 20), md("b2b3", 21), md("c2c3", 5)];
    let theirs = vec![md("b2b3", 20), md("a2a3", 20), md("d2d4", 3)];
    let r = compare_perft(&mine, &theirs);
    assert_eq!(r.len(), 4);
    assert!(matches!(&r[0], PerftCheck::Differs { name, expected: 20, found: 21 } if name == "b2b3"));
    assert!(matches!(&r[1], PerftCheck::Agrees { name, count: 20 } if name == "a2a3"));
    assert!(matches!(&r[2], PerftCheck::Missing { name, count: 3 } if name == "d2d4"));
    assert!(matches!(&r[3], PerftCheck::Extra { name } if name == "c2c3"));
}

#[test]
fn debug_perft_start() {
    let z = Zobrist::new();
    let b = Board::parse_fen(START, &z).unwrap();
    let v = b.debug_perft(2, &z).unwrap();
    assert_eq!(v.len(), 20);
    assert!(v.iter().all(|d| d.count == 20));
    assert!(v.iter().any(|d| d.name == "g1f3"));
}

#[test]
fn perft_case_lines() {
    let (fen, depth, count) = parse_perft_case("8/8/8/8/8/8/8/K6k w - - 0 1; 3; 1234;").unwrap();
    assert_eq!(fen, "8/8/8/8/8/8/8/K6k w - - 0 1");
    assert_eq!(depth, 3);
    assert_eq!(count, 1234);
    assert_eq!(parse_perft_case("fen; 2"), Err(PerftCaseError::Fields));
    assert_eq!(parse_perft_case("no separator"), Err(PerftCaseError::Fields));
    assert_eq!(parse_perft_case("fen; x; 5"), Err(PerftCaseError::Depth));
    assert_eq!(parse_perft_case("fen; 256"), Err(PerftCaseError::Depth));
    assert_eq!(parse_perft_case("fen; 2; five"), Err(PerftCaseError::Count));
    assert_eq!(parse_perft_case("fen; 2; 4294967296"), Err(PerftCaseError::Count));
}

#[test]
fn perft_entries_are_stored() {
    let z = Zobrist::new();
    let mut b = Board::parse_fen(START, &z).unwrap();
    let mut tt = vec![PerftEntry { key: 0, depth: 0, nodecount: 0 }; 16];
    assert_eq!(b.hashed_perft(2, &mut tt, &z), Some(400));
    let idx = (b.zobrist_key % 16) as usize;
    assert_eq!(tt[idx].key, b.zobrist_key);
    assert_eq!(tt[idx].depth, 2);
    assert_eq!(tt[idx].nodecount, 400);
    let kingless = Board::parse_fen("8/8/8/8/8/8/8/7k w - - 0 1", &z).unwrap();
    let mut kb = kingless;
    assert_eq!(kb.perft(1, &z), None);
    assert!(kingless.debug_perft(1, &z).is_none());
}

#[test]
fn debug_perft_counts_sum_to_perft() {
    let z = Zobrist::new();
    let mut b = Board::parse_fen(START, &z).unwrap();
    let v = b.debug_perft(3, &z).unwrap();
    assert_eq!(v.len(), 20);
    let total: u32 = v.iter().map(|d| d.count).sum();
    assert_eq!(Some(total), b.perft(3, &z));
    assert_eq!(total, 8902);
}

#[test]
fn hashed_perft_with_a_one_entry_table() {
    let z = Zobrist::new();
    let mut b = Board::parse_fen(START, &z).unwrap();
    let mut tt = vec![PerftEntry { key: 0, depth: 0, nodecount: 0 }; 1];
    assert_eq!(b.hashed_perft(3, &mut tt, &z), Some(8902));
    assert_eq!(tt[0].key, b.zobrist_key);
    assert_eq!(tt[0].depth, 3);
    assert_eq!(tt[0].nodecount, 8902);
}
