use shenyu::board_state::board::Board;
use shenyu::board_state::zobrist::Zobrist;
use shenyu::move_generation::magic::{
    bishop_attacks, fill_bishop_table, fill_rook_table, generate_rookmasks, PermutationCounter,
};
use shenyu::movegen::atks;
use shenyu::search::gamehistory::GameHistory;
use shenyu::search::timer::Timer;
use shenyu::search::transposition::{Entry, TranspositionTable};
use shenyu::text::{parse_u64, parse_u8};
use shenyu::uci::{parse_go, GoCommand, GoLimits};
use shenyu::move_generation::magic::rook_attacks;

#[test]
fn magic_tables_match_direct_attacks() {
    let rooks = fill_rook_table().expect("rook table");
    let bishops = fill_bishop_table().expect("bishop table");
    let occs = [0u64, 0x0000_1000_0010_0000, 0x00ff_0000_0000_ff00, 0x1234_5678_9abc_def0];
    for sq in 0..64u8 {
        for &occ in occs.iter() {
            assert_eq!(rook_attacks(&rooks, sq, occ), atks::rook_attacks(sq, occ));
            assert_eq!(bishop_attacks(&bishops, sq, occ), atks::bishop_attacks(sq, occ));
        }
    }
}

#[test]
fn permutation_counter_walks_all_submasks() {
    let mut c = PermutationCounter::new(0b1011);
    let mut seen = Vec::new();
    while let Some(s) = c.next() {
        seen.push(s);
    }
    assert_eq!(seen, vec![0b1011, 0b1010, 0b1001, 0b1000, 0b0011, 0b0010, 0b0001, 0]);
    let masks = generate_rookmasks();
    assert_eq!(masks[0], 0x000101010101017e);
}

#[test]
fn history_finds_repetitions() {
    let z = Zobrist::new();
    let mut h = GameHistory::new(&z);
    let start = Board::parse_fen("rnbqkbnr/pppppppp/8/8/8/8/PPPPPPPP/RNBQKBNR w KQkq - 0 1", &z).unwrap();
    assert_eq!(h.positions.items, vec![start.zobrist_key]);
    h.store(1);
    h.store(2);
    h.store(3);
    h.store(start.zobrist_key);
    assert!(h.find(4));
    assert!(!h.find(3));
    h.retract();
    assert!(!h.find(4));
    h.retract();
    h.retract();
    h.retract();
    h.retract();
    assert_eq!(h.positions.length, 1);
}

#[test]
fn transposition_entry_round_trip() {
    let mut e = Entry::new();
    e.store(42, 7, -5, 12, 2);
    assert_eq!(e.get_depth(), 12);
    assert_eq!(e.get_nodetype(), 2);
    assert!(e.key_equals(42));
    let mut t = TranspositionTable::new(1024);
    t.probe(5).store(5, 1, 2, 3, 1);
    assert!(t.probe(5).key_equals(5));
}

#[test]
fn time_allocation() {
    assert_eq!(Timer::allocate_time(30_000, 0), 1000);
    assert_eq!(Timer::allocate_time(1000, 10), 35);
    assert_eq!(Timer::allocate_time(8, 0), 0);
}

#[test]
fn numbers() {
    assert_eq!(parse_u8(&"255".chars().collect()), Some(255));
    assert_eq!(parse_u8(&"256".chars().collect()), None);
    assert_eq!(parse_u8(&"+7".chars().collect()), Some(7));
    assert_eq!(parse_u8(&"+".chars().collect()), None);
    assert_eq!(parse_u8(&"".chars().collect()), None);
    assert_eq!(parse_u8(&"-1".chars().collect()), None);
    assert_eq!(parse_u64(&"18446744073709551615".chars().collect()), Some(u64::MAX));
    assert_eq!(parse_u64(&"18446744073709551616".chars().collect()), None);
}

#[test]
fn go_commands() {
    assert_eq!(parse_go("go perft 3", false), Some(GoCommand::Perft(3)));
    assert_eq!(parse_go("go perft x", false), Some(GoCommand::Perft(0)));
    assert_eq!(parse_go("go depth x", false), None);
    assert_eq!(
        parse_go("go wtime 1000 btime 30000 winc 10 binc 0", false),
        Some(GoCommand::Search(GoLimits { is_timed: true, time_alloted: 35, max_nodes: u64::MAX, max_depth: u8::MAX }))
    );
    assert_eq!(
        parse_go("go wtime 1000 btime 30000 winc 10 binc 0", true),
        Some(GoCommand::Search(GoLimits { is_timed: true, time_alloted: 1000, max_nodes: u64::MAX, max_depth: u8::MAX }))
    );
    assert_eq!(
        parse_go("go depth 5 nodes 100", false),
        Some(GoCommand::Search(GoLimits { is_timed: false, time_alloted: u64::MAX / 8, max_nodes: 100, max_depth: 5 }))
    );
    assert_eq!(
        parse_go("go movetime 2000", false),
        Some(GoCommand::Search(GoLimits { is_timed: true, time_alloted: 2000, max_nodes: u64::MAX, max_depth: u8::MAX }))
    );
}

#[test]
fn moves_from_text() {
    let z = Zobrist::new();
    let mut b = Board::parse_fen("rnbqkbnr/pppppppp/8/8/8/8/PPPPPPPP/RNBQKBNR w KQkq - 0 1", &z).unwrap();
    assert_eq!(b.parse_moves("e2e4 e7e5 g1f3", &z), Some(()));
    assert_eq!(b.get_at_square(21), 2);
    assert!(b.tomove);
    assert_eq!(b.zobrist_key, b.generate_zobrist(&z));
    let before = b;
    assert_eq!(b.parse_moves("e2e4", &z), None);
    assert_eq!(b, before);
}

#[test]
fn time_is_up_compares_the_elapsed_milliseconds() {
    assert!(Timer::time_is_up(5, 5));
    assert!(Timer::time_is_up(6, 5));
    assert!(!Timer::time_is_up(4, 5));
    assert!(Timer::time_is_up(0, 0));
    assert!(!Timer::time_is_up(u128::from(u64::MAX) + 1, 1));
}
