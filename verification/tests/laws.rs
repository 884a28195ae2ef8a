use shenyu::board_state::typedefs::{Sq, Square};
use shenyu::board_state::zobrist::Zobrist;
use shenyu::movegen::types::square;
use shenyu::search::gamehistory::GameHistory;
use shenyu::text::{parse_u64, push_decimal};

#[test]
fn decimal_reads_back() {
    for n in [0u64, 7, 10, 99, 12345, u64::MAX - 1, u64::MAX] {
        let mut out = Vec::new();
        push_decimal(&mut out, n);
        assert_eq!(parse_u64(&out), Some(n));
    }
}

#[test]
fn square_names_read_back() {
    for s in 0u8..64 {
        let name = square::name(s);
        assert_eq!(<Square as Sq>::algebraic_to_sqr(name), Some(s));
        assert_eq!(square::from_algebraic(name), Some(s));
    }
}

#[test]
fn retract_undoes_store() {
    let z = Zobrist::new();
    let mut h = GameHistory::new(&z);
    let before: Vec<u64> = h.positions.items[..h.positions.length].to_vec();
    h.store(42);
    h.retract();
    let after: Vec<u64> = h.positions.items[..h.positions.length].to_vec();
    assert_eq!(before, after);
    h.retract();
    assert_eq!(h.positions.length, 1);
}
