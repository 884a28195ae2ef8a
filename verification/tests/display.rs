use shenyu::board_state::board::Board as OldBoard;
use shenyu::board_state::display::CASTLE_RIGHTS;
use shenyu::board_state::zobrist::Zobrist;
use shenyu::movegen::board::Board;
use shenyu::movegen::types::Color;
use shenyu::movegen::zobrist::ZobristContainer;
use shenyu::search::alphabeta::{mate_score, mated_in};
use shenyu::search::searchcontrol::{score_report, ScoreReport};
use shenyu::text::push_decimal;

#[test]
fn new_board_text() {
    let z = ZobristContainer::new();
    let b = Board::new(&z);
    let expected = "8 r n b q k b n r \n\
7 p p p p p p p p \n\
6 . . . . . . . . \n\
5 . . . . . . . . \n\
4 . . . . . . . . \n\
3 . . . . . . . . \n\
2 P P P P P P P P \n\
1 R N B Q K B N R \n\
\x20 a b c d e f g h \n\
\n|[====---------------------====]|\n\
|[    Active Color: White\n\
|[    Castle Rights: KQkq\n\
|[    En Passant Square: -\n\
|[    Halfmove Clock: 0\n\
|[====---------------------====]|";
    assert_eq!(b.to_string(), expected);
}

#[test]
fn new_board_text_fields() {
    let z = ZobristContainer::new();
    let mut b = Board::default();
    assert_eq!(b.parse_fen("4k3/8/8/3pP3/8/8/8/4K3 b - d6 17", &z), Ok(()));
    let text = b.to_string();
    assert!(text.contains("|[    Active Color: Black\n"));
    assert!(text.contains("|[    Castle Rights: -\n"));
    assert!(text.contains("|[    En Passant Square: d6\n"));
    assert!(text.contains("|[    Halfmove Clock: 17\n"));
    assert!(text.starts_with("8 . . . . k . . . \n"));
    assert!(text.contains("5 . . . p P . . . \n"));
}

#[test]
fn color_names() {
    assert_eq!(Color::W.to_string(), "White");
    assert_eq!(Color::B.to_string(), "Black");
}

#[test]
fn old_board_text() {
    let z = Zobrist::new();
    let b = OldBoard::parse_fen("4k3/8/8/8/8/8/8/4K2R w K - 3 1", &z).unwrap();
    let rule = "\n---+----+----+----+----+----+----+----+----+";
    let mut expected = String::new();
    for rank in 0..8 {
        expected += rule;
        expected += "\n";
        expected += &format!(" {}", 8 - rank);
        expected += " | ";
        for file in 0..8 {
            let c = match (rank, file) {
                (0, 4) => '♔',
                (7, 4) => '♚',
                (7, 7) => '♜',
                _ => ' ',
            };
            expected.push(c);
            expected += "  | ";
        }
    }
    expected += rule;
    expected += "\n   | a  | b  | c  | d  | e  | f  | g  | h  |";
    expected += "\n\n+------------------------------------------+";
    expected += "\n|   Active Color: White";
    expected += "\n|   Valid En Passant Square: None";
    expected += "\n|   Castling Rights: K";
    expected += "\n|   Halfmove Clock: 3";
    expected += &format!("\n|   Zobrist Key: {}", b.zobrist_key);
    expected += "\n+------------------------------------------+";
    assert_eq!(b.to_string(), expected);
}

#[test]
fn castle_rights_table() {
    assert_eq!(CASTLE_RIGHTS[0], "-");
    assert_eq!(CASTLE_RIGHTS[15], "KQkq");
    assert_eq!(CASTLE_RIGHTS[9], "Kq");
}

#[test]
fn decimal_text() {
    let mut out = vec!['x'];
    push_decimal(&mut out, 0);
    push_decimal(&mut out, 1907);
    push_decimal(&mut out, u64::MAX);
    let s: String = out.iter().collect();
    assert_eq!(s, format!("x01907{}", u64::MAX));
}

#[test]
fn mate_distances() {
    assert_eq!(mated_in(9995), 5);
    assert_eq!(mated_in(-9996), -4);
    assert_eq!(mated_in(0), -10000);
    assert_eq!(mate_score(3, 0), -9997);
    assert_eq!(mate_score(40000, 0), 30000);
    assert_eq!(mate_score(65535, 255), -10256);
}

#[test]
fn score_reports() {
    assert_eq!(score_report(9995), ScoreReport::Mate(3));
    assert_eq!(score_report(9994), ScoreReport::Mate(3));
    assert_eq!(score_report(-9996), ScoreReport::Mate(-2));
    assert_eq!(score_report(-9995), ScoreReport::Mate(-1));
    assert_eq!(score_report(-9999), ScoreReport::Mate(1));
    assert_eq!(score_report(35), ScoreReport::Centipawns(35));
    assert_eq!(score_report(-9900), ScoreReport::Centipawns(-9900));
}
