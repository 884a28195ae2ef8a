use vstd::prelude::*;
use crate::board_state::bitboard::{
    bishop_hit, bit, count, count_ones, lemma_bit_ops, ray_hit, ray_k, ray_on, ray_sq, rook_hit, single, Bitboard,
    Direction,
};
use super::movegen::{bishop_set, rook_set};
use super::legality::lemma_bits_of_holds;
use super::movegen::{bits_of, lemma_bits_of};
use vstd::arithmetic::power2::pow2;
use crate::board_state::typedefs::Square;
use crate::rng::{rng_from_os, rng_next_u64};
use super::masks::{initialize_bishop_atkmask, initialize_rook_atkmask, rook_endpoints};

verus! {

pub const ROOK_MAGIC_SIZE: usize = 102400;
pub const BISHOP_MAGIC_SIZE: usize = 5248;

// Magic bitboards for sliding piece attacks: the blockers on a piece's relevant squares,
// multiplied by a magic number and shifted, index a table of attack sets.

#[derive(Clone, Copy)]
pub struct Magic {
    pub mask: Bitboard,
    pub shift: u8,
    pub location: u64,
    pub magic_number: u64,
}

/// Where within its square's range a magic puts an occupancy: the occupancy's relevant
/// squares times the magic number, in wrapping arithmetic, shifted right.
pub open spec fn magic_slot(mask: u64, shift: u8, magic: u64, occupancy: u64) -> u64 {
    ((((occupancy & mask) as nat) * (magic as nat)) % 0x1_0000_0000_0000_0000) as u64 >> shift
}

/// The table index a magic gives for an occupancy: its slot past the magic's location, in
/// wrapping arithmetic.
pub open spec fn index_of(m: Magic, occupancy: u64) -> int {
    let y = magic_slot(m.mask, m.shift, m.magic_number, occupancy);
    if y + m.location > u64::MAX {
        y + m.location - 0x1_0000_0000_0000_0000
    } else {
        y + m.location
    }
}

/// The attack set of a rook (`rook`) or a bishop on `s` through `occ`.
pub open spec fn slider_set(rook: bool, s: int, occ: u64) -> u64 {
    if rook {
        rook_set(s, occ)
    } else {
        bishop_set(s, occ)
    }
}

/// The magic number keeps apart every two submasks of `mask` whose attack sets, for a rook
/// (`rook`) or a bishop on `s`, differ: it gives them different slots.
pub open spec fn separates(rook: bool, s: int, mask: u64, shift: u8, magic: u64) -> bool {
    forall|x: u64, y: u64|
        x & mask == x && y & mask == y && #[trigger] magic_slot(mask, shift, magic, x) == #[trigger] magic_slot(
            mask,
            shift,
            magic,
            y,
        ) ==> slider_set(rook, s, x) == slider_set(rook, s, y)
}

impl Magic {
    #[inline]
    pub fn generate_index(&self, occupancy: Bitboard) -> (r: usize)
        requires
            self.shift < 64,
        ensures
            index_of(*self, occupancy) <= usize::MAX ==> r == index_of(*self, occupancy),
    {
        let mut occ = occupancy;
        occ &= self.mask;
        occ = occ.wrapping_mul(self.magic_number);
        occ >>= self.shift;
        occ = occ.wrapping_add(self.location);
        occ as usize
    }
}

/// The attack sets of all squares, and for each square the magic that finds its entries.
pub struct Table {
    pub atks: Vec<Bitboard>,
    pub magics: [Magic; 64],
}

impl Table {
    /// Every magic has a shift below 64 and its whole index range lies inside the table.
    pub open spec fn wf(&self) -> bool {
        forall|i: int|
            0 <= i < 64 ==> (#[trigger] self.magics[i]).shift < 64 && self.magics[i].location
                + (u64::MAX >> self.magics[i].shift) < self.atks@.len()
    }
}

/// The rook's attack set the table holds for `square` and `occupancy`.
pub fn rook_attacks(table: &Table, square: Square, occupancy: Bitboard) -> (r: Bitboard)
    requires
        table.wf(),
        square < 64,
    ensures
        r == table.atks@[index_of(table.magics[square as int], occupancy)],
{
    // the table's length is a `usize`, which bounds every index into it
    let len = table.atks.len();
    proof {
        assert(len as int == table.atks@.len());
        lemma_index_bound(table.magics[square as int], occupancy);
    }
    let magic = table.magics[square as usize];
    let idx = magic.generate_index(occupancy);
    table.atks[idx]
}

/// The bishop's attack set the table holds for `square` and `occupancy`.
pub fn bishop_attacks(table: &Table, square: Square, occupancy: Bitboard) -> (r: Bitboard)
    requires
        table.wf(),
        square < 64,
    ensures
        r == table.atks@[index_of(table.magics[square as int], occupancy)],
{
    // the table's length is a `usize`, which bounds every index into it
    let len = table.atks.len();
    proof {
        assert(len as int == table.atks@.len());
        lemma_index_bound(table.magics[square as int], occupancy);
    }
    let magic = table.magics[square as usize];
    let idx = magic.generate_index(occupancy);
    table.atks[idx]
}

/// Walks the submasks of a mask from the mask itself down to 0 (the carry-rippler).
pub struct PermutationCounter {
    pub starting_bb: u64,
    pub current_bb: u64,
}

/// How far a counter still has to go: it ends after giving 0.
pub open spec fn steps_left(c: PermutationCounter) -> int {
    if c.current_bb == u64::MAX {
        0
    } else if c.current_bb == 0 {
        1
    } else {
        c.current_bb as int + 2
    }
}

/// Masking never makes a word larger.
pub proof fn lemma_and_le(a: u64, b: u64)
    by (bit_vector)
    ensures
        a & b <= a,
{
}

impl PermutationCounter {
    pub fn new(bb: u64) -> (r: PermutationCounter)
        ensures
            r.starting_bb == bb,
            r.current_bb == bb,
    {
        PermutationCounter { starting_bb: bb, current_bb: bb }
    }

    /// The next submask: the current one, after which comes the next lower submask; after
    /// 0 the counter is done.
    pub fn next(&mut self) -> (r: Option<u64>)
        requires
            old(self).current_bb == u64::MAX || old(self).current_bb & old(self).starting_bb
                == old(self).current_bb,
        ensures
            final(self).starting_bb == old(self).starting_bb,
            old(self).current_bb == 0 ==> r == Some(0u64) && final(self).current_bb == u64::MAX,
            old(self).current_bb == u64::MAX ==> r is None && final(self).current_bb == u64::MAX,
            old(self).current_bb != 0 && old(self).current_bb != u64::MAX ==> r == Some(
                old(self).current_bb,
            ) && final(self).current_bb == ((old(self).current_bb - 1) as u64) & old(
                self,
            ).starting_bb,
            r is Some ==> steps_left(*final(self)) < steps_left(*old(self)),
            final(self).current_bb == u64::MAX || final(self).current_bb & final(self).starting_bb
                == final(self).current_bb,
    {
        if self.current_bb == 0 {
            self.current_bb = u64::MAX;
            Some(0)
        } else if self.current_bb == u64::MAX {
            None
        } else {
            let prev_bb = self.current_bb;
            self.current_bb -= 1;
            self.current_bb &= self.starting_bb;
            proof {
                lemma_and_le((prev_bb - 1) as u64, self.starting_bb);
                lemma_sub_mask((prev_bb - 1) as u64, self.starting_bb);
            }
            Some(prev_bb)
        }
    }
}

proof fn lemma_sub_mask(a: u64, b: u64)
    by (bit_vector)
    ensures
        (a & b) & b == a & b,
        a & a == a,
        0u64 & b == 0,
{
}

/// `b` holds the relevant squares of a rook on `s`: its rays on an empty board without the
/// squares at the ends of its rank and file.
pub open spec fn rook_mask_ok(b: u64, s: int) -> bool {
    forall|u: int|
        0 <= u < 64 ==> #[trigger] bit(b, u) == (rook_hit(s, 0, u) && u != s % 8 && u != s % 8 + 56
            && u != s / 8 * 8 && u != s / 8 * 8 + 7)
}

/// The relevant squares of a rook on `s`: its rays on an empty board without the squares
/// at the ends of its rank and file.
pub open spec fn rook_mask(s: int) -> u64 {
    bits_of(
        |u: int|
            rook_hit(s, 0, u) && u != s % 8 && u != s % 8 + 56 && u != s / 8 * 8 && u != s / 8 * 8 + 7,
    )
}

/// The relevant squares of a bishop on `s`: its diagonals on an empty board inside the
/// rim.
pub open spec fn bishop_mask(s: int) -> u64 {
    bits_of(|u: int| bishop_hit(s, 0, u) && bit(0x7e7e7e7e7e7e00u64, u))
}

/// The relevant squares of a rook on each square.
pub open spec fn rook_masks() -> Seq<u64> {
    Seq::new(64, |i: int| rook_mask(i))
}

/// The relevant squares of a bishop on each square.
pub open spec fn bishop_masks() -> Seq<u64> {
    Seq::new(64, |i: int| bishop_mask(i))
}

/// `b` holds the relevant squares of a bishop on `s`: its diagonals on an empty board inside
/// the rim.
pub open spec fn bishop_mask_ok(b: u64, s: int) -> bool {
    forall|u: int| 0 <= u < 64 ==> #[trigger] bit(b, u) == (bishop_hit(s, 0, u) && bit(0x7e7e7e7e7e7e00u64, u))
}

pub fn generate_rookmasks() -> (r: [Bitboard; 64])
    ensures
        forall|i: int| 0 <= i < 64 ==> rook_mask_ok(#[trigger] r[i], i),
        forall|i: int| 0 <= i < 64 ==> #[trigger] r[i] == rook_mask(i),
{
    let mut arr = [0u64; 64];
    for i in 0..64usize
        invariant
            forall|k: int| 0 <= k < i ==> rook_mask_ok(#[trigger] arr[k], k),
            forall|k: int| 0 <= k < i ==> #[trigger] arr[k] == rook_mask(k),
    {
        let atk = initialize_rook_atkmask(0, i as u8);
        let ends = rook_endpoints(i as u8);
        let m = atk & !ends;
        proof {
            let s = i as int;
            crate::board_state::bitboard::lemma_single((s % 8) as u64);
            crate::board_state::bitboard::lemma_single((s % 8 + 56) as u64);
            crate::board_state::bitboard::lemma_single((s / 8 * 8) as u64);
            crate::board_state::bitboard::lemma_single((s / 8 * 8 + 7) as u64);
            assert forall|u: int| 0 <= u < 64 implies #[trigger] bit(m, u) == (rook_hit(s, 0, u) && u
                != s % 8 && u != s % 8 + 56 && u != s / 8 * 8 && u != s / 8 * 8 + 7) by {
                let (a, b, c, d) = (single(s % 8), single(s % 8 + 56), single(s / 8 * 8), single(s / 8 * 8 + 7));
                crate::board_state::bitboard::lemma_bit_ops(atk, !ends, u);
                crate::board_state::bitboard::lemma_bit_ops(ends, 0, u);
                crate::board_state::bitboard::lemma_bit_ops(a | b | c, d, u);
                crate::board_state::bitboard::lemma_bit_ops(a | b, c, u);
                crate::board_state::bitboard::lemma_bit_ops(a, b, u);
            }
            assert(rook_mask_ok(m, s));
            lemma_bits_of(
                m,
                |u: int|
                    rook_hit(s, 0, u) && u != s % 8 && u != s % 8 + 56 && u != s / 8 * 8 && u != s / 8 * 8 + 7,
            );
        }
        arr[i] = m;
    }
    arr
}

pub fn generate_bishopmasks() -> (r: [Bitboard; 64])
    ensures
        forall|i: int| 0 <= i < 64 ==> bishop_mask_ok(#[trigger] r[i], i),
        forall|i: int| 0 <= i < 64 ==> #[trigger] r[i] == bishop_mask(i),
{
    let mut arr = [0u64; 64];
    for i in 0..64usize
        invariant
            forall|k: int| 0 <= k < i ==> bishop_mask_ok(#[trigger] arr[k], k),
            forall|k: int| 0 <= k < i ==> #[trigger] arr[k] == bishop_mask(k),
    {
        let atk = initialize_bishop_atkmask(0, i as u8);
        let m = atk & 0x7e7e7e7e7e7e00;
        proof {
            let s = i as int;
            assert forall|u: int| 0 <= u < 64 implies #[trigger] bit(m, u) == (bishop_hit(s, 0, u) && bit(
                0x7e7e7e7e7e7e00u64,
                u,
            )) by {
                crate::board_state::bitboard::lemma_bit_ops(atk, 0x7e7e7e7e7e7e00u64, u);
            }
            assert(bishop_mask_ok(m, s));
            lemma_bits_of(m, |u: int| bishop_hit(s, 0, u) && bit(0x7e7e7e7e7e7e00u64, u));
        }
        arr[i] = m;
    }
    arr
}

/// Counting one further in wrapping arithmetic counts one further modulo 2^64.
proof fn lemma_wrap_succ(x: int)
    requires
        x >= 0,
    ensures
        (if (x % 0x1_0000_0000_0000_0000) + 1 > u64::MAX {
            (x % 0x1_0000_0000_0000_0000) + 1 - 0x1_0000_0000_0000_0000
        } else {
            (x % 0x1_0000_0000_0000_0000) + 1
        }) == (x + 1) % 0x1_0000_0000_0000_0000,
{
    let m: int = 0x1_0000_0000_0000_0000;
    vstd::arithmetic::div_mod::lemma_fundamental_div_mod(x, m);
    vstd::arithmetic::div_mod::lemma_fundamental_div_mod(x + 1, m);
    vstd::arithmetic::div_mod::lemma_mod_bound(x, m);
    vstd::arithmetic::div_mod::lemma_mod_bound(x + 1, m);
    if x % m + 1 < m {
        vstd::arithmetic::div_mod::lemma_mod_add_multiples_vanish(x % m + 1, m);
        assert((x + 1) % m == x % m + 1) by {
            vstd::arithmetic::div_mod::lemma_add_mod_noop(x, 1, m);
            vstd::arithmetic::div_mod::lemma_small_mod((x % m + 1) as nat, m as nat);
            vstd::arithmetic::div_mod::lemma_small_mod(1nat, m as nat);
        }
    } else {
        assert((x + 1) % m == 0) by {
            vstd::arithmetic::div_mod::lemma_add_mod_noop(x, 1, m);
            vstd::arithmetic::div_mod::lemma_small_mod(1nat, m as nat);
            vstd::arithmetic::div_mod::lemma_mod_self_0(m);
        }
    }
}

/// How many submasks the counter walks from `cur` down to 0, `cur` included.
pub open spec fn walk_len(m: u64, cur: u64) -> nat
    decreases cur,
{
    if cur == 0 {
        1
    } else {
        proof {
            lemma_and_le((cur - 1) as u64, m);
        }
        1 + walk_len(m, ((cur - 1) as u64) & m)
    }
}

/// The carry-rippler steps of a mask `m` and of `m` without its lowest square `m2`: a
/// submask with that square set steps to the same submask without it, and a nonzero one
/// without it steps to its own step in `m2` with the square set.
proof fn lemma_ripple_split(m: u64, m2: u64, x: u64)
    by (bit_vector)
    requires
        m != 0,
        m2 == m & ((m - 1) as u64),
        x & m2 == x,
    ensures
        (((x | (m ^ m2)) - 1) as u64) & m == x,
        x != 0 ==> ((x - 1) as u64) & m == (((x - 1) as u64) & m2) | (m ^ m2),
        m == m2 | (m ^ m2),
        x | (m ^ m2) != 0,
        (x | (m ^ m2)) & m == x | (m ^ m2),
        x & (m ^ m2) == 0,
{
}

/// Shifting one left by `c` gives two to the `c`.
proof fn lemma_one_shl(c: u32)
    requires
        c < 64,
    ensures
        (1u64 << c) as nat == pow2(c as nat),
{
    assert((1u64 << c) == (1u64 << (c as u64))) by (bit_vector)
        requires
            c < 64,
    ;
    vstd::bits::lemma_u64_pow2_no_overflow(c as nat);
    vstd::bits::lemma_u64_shl_is_mul(1, c as u64);
}

/// Walking the submasks of `m` from a submask of `m2` (`m` without its lowest square) takes
/// twice as many steps as walking those of `m2`, less one; from it with the lowest square
/// set, twice as many.
proof fn lemma_walk_split(m: u64, m2: u64, x: u64)
    requires
        m != 0,
        m2 == m & ((m - 1) as u64),
        x & m2 == x,
    ensures
        walk_len(m, x) == 2 * walk_len(m2, x) - 1,
        walk_len(m, x | (m ^ m2)) == 2 * walk_len(m2, x),
    decreases x,
{
    lemma_ripple_split(m, m2, x);
    if x != 0 {
        let y = ((x - 1) as u64) & m2;
        lemma_and_le((x - 1) as u64, m2);
        lemma_sub_mask((x - 1) as u64, m2);
        lemma_walk_split(m, m2, y);
        assert(walk_len(m, x) == 1 + walk_len(m, ((x - 1) as u64) & m));
        assert(walk_len(m2, x) == 1 + walk_len(m2, y));
    }
    assert(walk_len(m, x | (m ^ m2)) == 1 + walk_len(m, (((x | (m ^ m2)) - 1) as u64) & m));
}

/// The counter walks `2^k` submasks of a mask of `k` squares.
pub proof fn lemma_walk_count(m: u64)
    ensures
        walk_len(m, m) == pow2(count(m) as nat),
    decreases count(m),
{
    if m == 0 {
        assert(count(0) == 0) by {
            lemma_count_zero(64);
        }
        vstd::arithmetic::power2::lemma2_to64();
    } else {
        let m2 = m & ((m - 1) as u64);
        crate::board_state::bitboard::lemma_count_pop(m);
        lemma_sub_mask((m - 1) as u64, m);
        assert(m2 & m2 == m2) by {
            lemma_sub_mask(m2, m2);
        }
        lemma_walk_count(m2);
        lemma_walk_split(m, m2, m2);
        lemma_ripple_split(m, m2, m2);
        vstd::arithmetic::power2::lemma_pow2_unfold(count(m) as nat);
    }
}

/// The empty board counts no squares below `n`.
proof fn lemma_count_zero(n: int)
    requires
        0 <= n <= 64,
    ensures
        crate::board_state::bitboard::bb_sum(0, |s: int| 1int, n) == 0,
    decreases n,
{
    if n > 0 {
        lemma_count_zero(n - 1);
        lemma_bit_ops(0, 0, n - 1);
    }
}

/// How many submasks the masks before the `n`th have in all, counted by the counter's walk.
pub open spec fn submask_total(masks: Seq<u64>, n: int) -> nat
    decreases n,
{
    if n <= 0 {
        0
    } else {
        submask_total(masks, n - 1) + walk_len(masks[n - 1], masks[n - 1])
    }
}

/// That count as the table's running location holds it, in wrapping arithmetic.
pub open spec fn wrapped_total(masks: Seq<u64>, n: int) -> u64 {
    (submask_total(masks, n) % 0x1_0000_0000_0000_0000) as u64
}

/// The fill of a table of `size` entries goes through the first `n` masks: each has some
/// but not all squares, and its index range, from the location where the masks before it
/// end, lies inside the table.
pub open spec fn fill_fits(masks: Seq<u64>, size: int, n: int) -> bool {
    forall|k: int|
        0 <= k < n ==> 0 < #[trigger] count(masks[k]) < 64 && wrapped_total(masks, k) + (1u64 << (count(
            masks[k],
        ) as u64)) <= size
}

/// Fills a table from the relevant-square masks and magic numbers: square after square,
/// each submask's attack set goes to the index its magic gives it, the square's location
/// being where the submasks of the squares before it end. `None` exactly when a mask is
/// empty or full, a square's index range does not fit in the table, or the submasks do not
/// number `size` in all.
fn fill_table(masks: &[Bitboard; 64], magic_numbers: &[u64; 64], size: usize, rook: bool) -> (r: Option<Table>)
    ensures
        r is Some <==> fill_fits(masks@, size as int, 64) && wrapped_total(masks@, 64) == size,
        r matches Some(t) ==> t.wf() && t.atks@.len() == size && forall|i: int|
            0 <= i < 64 ==> (#[trigger] t.magics[i]).mask == masks[i] && t.magics[i].shift == (64 - count(
                masks[i],
            )) as u8 && t.magics[i].location == wrapped_total(masks@, i) && t.magics[i].magic_number
                == magic_numbers[i],
        r matches Some(t) ==> forall|i: int, x: u64|
            0 <= i < 64 && x & masks[i] == x && separates(
                rook,
                i,
                masks[i],
                (64 - count(masks[i])) as u8,
                magic_numbers[i],
            ) ==> t.atks@[#[trigger] index_of(t.magics[i], x)] == slider_set(rook, i, x),
{
    let mut atks: Vec<Bitboard> = Vec::new();
    for k in 0..size
        invariant
            atks@.len() == k,
    {
        atks.push(0);
    }
    let mut magics = [Magic { mask: 0, shift: 0, location: 0, magic_number: 0 };64];
    let mut offset: u64 = 0;
    for i in 0..64usize
        invariant
            atks@.len() == size,
            offset == wrapped_total(masks@, i as int),
            fill_fits(masks@, size as int, i as int),
            forall|k: int|
                0 <= k < i ==> #[trigger] magics[k].shift < 64 && magics[k].location + (u64::MAX
                    >> magics[k].shift) < size,
            forall|k: int|
                0 <= k < i ==> (#[trigger] magics[k]).mask == masks[k] && magics[k].shift == (64 - count(
                    masks[k],
                )) as u8 && magics[k].location == wrapped_total(masks@, k) && magics[k].magic_number
                    == magic_numbers[k],
            forall|k: int, x: u64|
                0 <= k < i && x & masks[k] == x && separates(
                    rook,
                    k,
                    masks[k],
                    (64 - count(masks[k])) as u8,
                    magic_numbers[k],
                ) ==> #[trigger] index_of(magics[k], x) < offset && atks@[index_of(magics[k], x)] == slider_set(
                    rook,
                    k,
                    x,
                ),
    {
        let mask = masks[i];
        let bits = count_ones(mask);
        if bits == 0 || bits >= 64 {
            return None;
        }
        let newmagic = Magic {
            mask,
            shift: 64 - (bits as u8),
            location: offset,
            magic_number: magic_numbers[i],
        };
        let span: u64 = 1u64 << bits;
        if offset as u128 + span as u128 > size as u128 {
            return None;
        }
        proof {
            lemma_span(bits as u64);
        }
        magics[i] = newmagic;
        let mut counter = PermutationCounter::new(mask);
        proof {
            lemma_sub_mask(mask, mask);
            lemma_count_full(64);
            assert(mask != u64::MAX);
        }
        let ghost base = submask_total(masks@, i as int);
        let ghost at_start = atks@;
        let ghost sep = separates(rook, i as int, mask, newmagic.shift, newmagic.magic_number);
        proof {
            assert forall|x: u64| x & newmagic.mask == x && x > counter.current_bb implies false by {
                lemma_submask_le(x, mask);
            }
        }
        loop
            invariant
                atks@.len() == size,
                counter.starting_bb == mask,
                counter.current_bb == u64::MAX || counter.current_bb & counter.starting_bb
                    == counter.current_bb,
                newmagic.shift < 64,
                newmagic.location + (u64::MAX >> newmagic.shift) < size,
                i < 64,
                mask == masks[i as int],
                base == submask_total(masks@, i as int),
                offset == ((base + walk_len(mask, mask) - (if counter.current_bb == u64::MAX {
                    0
                } else {
                    walk_len(mask, counter.current_bb)
                })) % 0x1_0000_0000_0000_0000) as u64,
                counter.current_bb == u64::MAX || walk_len(mask, counter.current_bb) <= walk_len(mask, mask),
                newmagic.mask == mask,
                newmagic.location == (base % 0x1_0000_0000_0000_0000) as u64,
                sep == separates(rook, i as int, mask, newmagic.shift, newmagic.magic_number),
                forall|j: int| 0 <= j < newmagic.location ==> #[trigger] atks@[j] == at_start[j],
                sep ==> filled_above(atks@, newmagic, rook, i as int, counter.current_bb),
            ensures
                forall|j: int| 0 <= j < newmagic.location ==> #[trigger] atks@[j] == at_start[j],
                sep ==> filled_above(atks@, newmagic, rook, i as int, u64::MAX),
                offset == ((base + walk_len(mask, mask)) % 0x1_0000_0000_0000_0000) as u64,
            decreases steps_left(counter),
        {
            let ghost cur = counter.current_bb;
            let submask = match counter.next() {
                Some(s) => s,
                None => break,
            };
            proof {
                lemma_index_bound(newmagic, submask);
            }
            let idx = newmagic.generate_index(submask);
            if idx >= atks.len() {
                return None;
            }
            let atk = if rook {
                initialize_rook_atkmask(submask, i as u8)
            } else {
                initialize_bishop_atkmask(submask, i as u8)
            };
            let ghost before = atks@;
            atks.set(idx, atk);
            proof {
                lemma_index_bound(newmagic, submask);
                let sq = i as int;
                if rook {
                    lemma_bits_of(atk, |t: int| rook_hit(sq, submask, t));
                } else {
                    lemma_bits_of(atk, |t: int| bishop_hit(sq, submask, t));
                }
                if sep {
                    let ncur = counter.current_bb;
                    lemma_sub_mask(mask, mask);
                    assert forall|x: u64| x & newmagic.mask == x && (ncur == u64::MAX || x > ncur) implies 0
                        <= #[trigger] index_of(newmagic, x) < atks@.len() && atks@[index_of(newmagic, x)]
                        == slider_set(rook, sq, x) by {
                        if x != submask {
                            if x < submask {
                                lemma_next_submask(submask, mask, x);
                                lemma_and_le((submask - 1) as u64, mask);
                            }
                            assert(x > cur);
                            lemma_index_bound(newmagic, x);
                            if index_of(newmagic, x) == idx {
                                assert(magic_slot(mask, newmagic.shift, newmagic.magic_number, x) == magic_slot(
                                    mask,
                                    newmagic.shift,
                                    newmagic.magic_number,
                                    submask,
                                ));
                            }
                        }
                    }
                }
            }
            let ghost old_offset = offset;
            offset = offset.wrapping_add(1);
            proof {
                let m: int = 0x1_0000_0000_0000_0000;
                let rem: int = walk_len(mask, cur) as int;
                let ncur = counter.current_bb;
                let nrem: int = if ncur == u64::MAX { 0 } else { walk_len(mask, ncur) as int };
                if cur != 0 {
                    lemma_and_le((cur - 1) as u64, mask);
                    assert(walk_len(mask, cur) == 1 + walk_len(mask, ((cur - 1) as u64) & mask));
                }
                assert(nrem == rem - 1);
                let x = base + walk_len(mask, mask) - rem;
                lemma_wrap_succ(x);
                vstd::arithmetic::div_mod::lemma_mod_bound(x, m);
                vstd::arithmetic::div_mod::lemma_mod_bound(x + 1, m);
                assert(old_offset as int == x % m);
                assert(offset as int == (x + 1) % m);
            }
        }
        proof {
            assert(submask_total(masks@, i as int + 1) == base + walk_len(mask, mask));
            lemma_walk_count(mask);
            lemma_one_shl(bits);
            let m: int = 0x1_0000_0000_0000_0000;
            vstd::arithmetic::div_mod::lemma_add_mod_noop(base as int, walk_len(mask, mask) as int, m);
            vstd::arithmetic::div_mod::lemma_mod_bound(base as int, m);
            vstd::arithmetic::div_mod::lemma_small_mod(walk_len(mask, mask), m as nat);
            vstd::arithmetic::div_mod::lemma_small_mod(((base as int % m) + walk_len(mask, mask)) as nat, m as nat);
            assert(offset as int == newmagic.location + span);
            assert forall|k: int, x: u64|
                0 <= k < i + 1 && x & masks[k] == x && separates(
                    rook,
                    k,
                    masks[k],
                    (64 - count(masks[k])) as u8,
                    magic_numbers[k],
                ) implies #[trigger] index_of(magics[k], x) < offset && atks@[index_of(magics[k], x)] == slider_set(
                    rook,
                    k,
                    x,
                ) by {
                if k == i {
                    lemma_index_bound(newmagic, x);
                }
            }
        }
    }
    if offset as u128 != size as u128 {
        return None;
    }
    Some(Table { atks, magics })
}

/// The index range of a magic with `bits` relevant squares spans `2^bits` entries.
proof fn lemma_span(bits: u64)
    by (bit_vector)
    requires
        1 <= bits <= 63,
    ensures
        (u64::MAX >> ((64 - bits) as u8)) == (1u64 << bits) - 1,
{
}

/// A magic's index is at most its location plus the largest shifted value.
proof fn lemma_index_bound(m: Magic, occ: u64)
    requires
        m.shift < 64,
        m.location + (u64::MAX >> m.shift) <= u64::MAX,
    ensures
        index_of(m, occ) <= m.location + (u64::MAX >> m.shift),
        index_of(m, occ) >= m.location,
{
    let x = ((((occ & m.mask) as nat) * (m.magic_number as nat)) % 0x1_0000_0000_0000_0000) as u64;
    lemma_shift_le(x, m.shift);
}

proof fn lemma_shift_le(x: u64, s: u8)
    by (bit_vector)
    requires
        s < 64,
    ensures
        x >> s <= u64::MAX >> s,
{
}

pub const ROOK_MAGICS: [u64; 64] = [
    0x80041040002280, 0x140001000200840, 0x180100084200008, 0x4900090004205002, 
    0x68800a8004000800, 0x100040001000842, 0x100020011000284, 0x2a000048840d2201,
    0x1004801021814000, 0x2008400020015000, 0x400802000821008, 0x8001000901201000,
    0x801000501100800, 0x5002001002001458, 0x3c00700608010c, 0x8400800041002180,
    0x80044001c82000, 0x10004002200040, 0x41818050002004, 0x10210009041001,
    0x1010008000410, 0x4001010002080c00, 0x84188c0001108a28, 0x400020023044084,
    0x80014040002004, 0x2121010040008c, 0x84a0002080100080, 0x80080100080,
    0x40080080080, 0x1052000600104428, 0x24401040010080a, 0x29200040261,
    0x80104000808004a0, 0xa1200840401000, 0x40100180802000, 0x2900180800804,
    0xa004000800800482, 0x2000400810080, 0xc000221084000801, 0x1001a446000403,
    0x4340022480418000, 0x500020014000, 0x801208600420012, 0x691001910010021,
    0x4041080045010030, 0x420004008080, 0x220020b10040008, 0xc080018041020004,
    0x6040308201004200, 0x4000802010400080, 0x401100a00100, 0x50011804004040,
    0x800d021004080100, 0x20048004008a0080, 0x1000080122502400, 0x40340c0945248200,
    0x108002c058810021, 0x8508200430022, 0x40220151800842, 0x400028b001000521,
    0x48000500061003, 0x25001400860821, 0x428502481004, 0x1000209408027,
];
pub const BISHOP_MAGICS: [u64; 64] = [
    0x288284180820200, 0x110040104002980, 0x50050041000000, 0x2004040482002000, 
    0x40051040a0000000, 0x91602100c201028, 0x2824010802500004, 0x4000108c14200401,
    0x401020982a480845, 0x1012123c05020202, 0x110100c00803100, 0x20001220820000c0,
    0x1828084840023800, 0x214886008020a, 0x1b8088084100, 0x41048482080a0200,
    0x10202002422804, 0x20208842508602, 0x104a008408031100, 0xb40c800802004000,
    0x2405015820080040, 0x880800510101100, 0x168064041c0202, 0x28808304008200,
    0x420ac0020380200, 0x20a25006a0010200, 0x2208080014024810, 0x64010000490100,
    0x2888840002020204, 0x8000902002021000, 0x88a00008804a0, 0xc10040010c00bc,
    0x281820100a160401, 0xa48880440091040, 0x1012010400404840, 0xa000020180480081,
    0x158082400004100, 0x2116088300020440, 0x804810200024800, 0x14850612802202d0,
    0x221888840000814, 0x9604044402002404, 0x71010a0092029000, 0x880441420181c800,
    0x20202008800501, 0x2101010102014500, 0xc108016806804202, 0x4010410109040420,
    0x5012802c00410, 0x1c0c844100800, 0x90110047100000, 0x4040110840c0220,
    0x4001004045010004, 0x100250010018, 0x10200103020000, 0x8004010204030011,
    0x4001002704024040, 0x8000c9400880400, 0x8002114021080800, 0x4002040420200,
    0x800400004104400, 0x401022004500080, 0x8430540800a402, 0x40184200424100,
];

/// The rook table from the built-in magic numbers; `None` exactly when the rook masks'
/// index ranges do not fit a table of that size or their submasks do not number its size.
pub fn fill_rook_table() -> (r: Option<Table>)
    ensures
        r is Some <==> fill_fits(rook_masks(), ROOK_MAGIC_SIZE as int, 64) && wrapped_total(rook_masks(), 64) == ROOK_MAGIC_SIZE,
        r matches Some(t) ==> t.wf() && t.atks@.len() == ROOK_MAGIC_SIZE && forall|i: int|
            0 <= i < 64 ==> (#[trigger] t.magics[i]).mask == rook_mask(i) && t.magics[i].shift == (64 - count(
                rook_mask(i),
            )) as u8 && t.magics[i].location == wrapped_total(rook_masks(), i) && t.magics[i].magic_number
                == ROOK_MAGICS[i],
        r matches Some(t) ==> forall|i: int, x: u64|
            0 <= i < 64 && x & rook_mask(i) == x && separates(
                true,
                i,
                rook_mask(i),
                (64 - count(rook_mask(i))) as u8,
                ROOK_MAGICS[i],
            ) ==> t.atks@[#[trigger] index_of(t.magics[i], x)] == slider_set(true, i, x),
{
    let masks = generate_rookmasks();
    proof {
        assert(masks@ =~= rook_masks());
    }
    fill_table(&masks, &ROOK_MAGICS, ROOK_MAGIC_SIZE, true)
}

/// The bishop table from the built-in magic numbers; `None` exactly when the bishop
/// masks' index ranges do not fit a table of that size or their submasks do not number its
/// size.
pub fn fill_bishop_table() -> (r: Option<Table>)
    ensures
        r is Some <==> fill_fits(bishop_masks(), BISHOP_MAGIC_SIZE as int, 64) && wrapped_total(bishop_masks(), 64) == BISHOP_MAGIC_SIZE,
        r matches Some(t) ==> t.wf() && t.atks@.len() == BISHOP_MAGIC_SIZE && forall|i: int|
            0 <= i < 64 ==> (#[trigger] t.magics[i]).mask == bishop_mask(i) && t.magics[i].shift == (64 - count(
                bishop_mask(i),
            )) as u8 && t.magics[i].location == wrapped_total(bishop_masks(), i) && t.magics[i].magic_number
                == BISHOP_MAGICS[i],
        r matches Some(t) ==> forall|i: int, x: u64|
            0 <= i < 64 && x & bishop_mask(i) == x && separates(
                false,
                i,
                bishop_mask(i),
                (64 - count(bishop_mask(i))) as u8,
                BISHOP_MAGICS[i],
            ) ==> t.atks@[#[trigger] index_of(t.magics[i], x)] == slider_set(false, i, x),
{
    let masks = generate_bishopmasks();
    proof {
        assert(masks@ =~= bishop_masks());
    }
    fill_table(&masks, &BISHOP_MAGICS, BISHOP_MAGIC_SIZE, false)
}

/// The full board counts `n` squares below `n`.
proof fn lemma_count_full(n: int)
    requires
        0 <= n <= 64,
    ensures
        crate::board_state::bitboard::bb_sum(u64::MAX, |s: int| 1int, n) == n,
    decreases n,
{
    if n > 0 {
        lemma_count_full(n - 1);
        lemma_bit_ops(0, 0, n - 1);
    }
}

/// A submask is no greater than its mask.
proof fn lemma_submask_le(x: u64, m: u64)
    by (bit_vector)
    requires
        x & m == x,
    ensures
        x <= m,
{
}

/// Below a nonzero submask `c` of `m`, the next lower submask is `(c - 1) & m`: no
/// submask lies strictly between them.
proof fn lemma_next_submask(c: u64, m: u64, x: u64)
    by (bit_vector)
    requires
        c & m == c,
        c != 0,
        x & m == x,
        x < c,
    ensures
        x <= ((c - 1) as u64) & m,
{
}

/// A rook or a bishop attacks at least one square from any square.
proof fn lemma_slider_set_nonzero(rook: bool, s: int, occ: u64)
    requires
        0 <= s < 64,
    ensures
        slider_set(rook, s, occ) != 0,
{
    lemma_bits_of_holds(|t: int| rook_hit(s, occ, t));
    lemma_bits_of_holds(|t: int| bishop_hit(s, occ, t));
    let (r, f) = (s / 8, s % 8);
    assert(s == r * 8 + f);
    let u: int;
    if rook {
        if f < 7 {
            u = s + 1;
            assert(u / 8 == r && u % 8 == f + 1);
            assert(crate::board_state::bitboard::delta(Direction::E) == (0int, 1int));
            assert((u % 8 - s % 8) * 1 == 1);
            assert(ray_k(s, Direction::E, u) == 1);
            assert(ray_sq(s, Direction::E, 1) == u);
            assert(crate::board_state::bitboard::ray_clear(s, Direction::E, occ, 0));
            assert(ray_hit(s, Direction::E, occ, u));
        } else {
            u = s - 1;
            assert(u / 8 == r && u % 8 == f - 1);
            assert(ray_hit(s, Direction::W, occ, u));
        }
    } else if r < 7 {
        if f < 7 {
            u = s + 9;
            assert(u / 8 == r + 1 && u % 8 == f + 1);
            assert(ray_k(s, Direction::NE, u) == 1);
            assert(ray_sq(s, Direction::NE, 1) == u);
            assert(crate::board_state::bitboard::ray_clear(s, Direction::NE, occ, 0));
            assert(ray_hit(s, Direction::NE, occ, u));
        } else {
            u = s + 7;
            assert(u / 8 == r + 1 && u % 8 == f - 1);
            assert(ray_hit(s, Direction::NW, occ, u));
        }
    } else {
        if f < 7 {
            u = s - 7;
            assert(u / 8 == r - 1 && u % 8 == f + 1);
            assert(ray_hit(s, Direction::SE, occ, u));
        } else {
            u = s - 9;
            assert(u / 8 == r - 1 && u % 8 == f - 1);
            assert(ray_hit(s, Direction::SW, occ, u));
        }
    }
    lemma_bit_ops(0, 0, u);
    assert(bit(slider_set(rook, s, occ), u));
}

/// Every submask of the magic's mask above `cur` (every one, once `cur` is the end mark)
/// has, at the index the magic gives it, its attack set.
spec fn filled_above(table: Seq<u64>, m: Magic, rook: bool, s: int, cur: u64) -> bool {
    forall|x: u64|
        x & m.mask == x && (cur == u64::MAX || x > cur) ==> 0 <= #[trigger] index_of(m, x) < table.len() && table[index_of(
            m,
            x,
        )] == slider_set(rook, s, x)
}

/// Every entry of `table` in the range `offset..=end` that is set holds the attack set of a
/// submask of the magic's mask above `cur` (of any, once `cur` is the end mark) that the
/// magic sends there.
spec fn entries_from_above(table: Seq<u64>, m: Magic, rook: bool, s: int, cur: u64, offset: int, end: int) -> bool {
    forall|j: int|
        offset <= j <= end && #[trigger] table[j] != 0 ==> exists|x: u64|
            x & m.mask == x && (cur == u64::MAX || x > cur) && index_of(m, x) == j && table[j] == slider_set(
                rook,
                s,
                x,
            )
}

/// Whether `candidate` may be the magic number of `square` with the relevant squares
/// `mask`, the square's entries lying from `offset` on: it is, exactly when it keeps apart
/// every two submasks whose attack sets differ. The entries are filled on the way; when the
/// candidate fails they are cleared again.
fn candidate_fits(table: &mut Vec<u64>, mask: u64, square: u8, rook: bool, offset: u64, candidate: u64) -> (r: bool)
    requires
        square < 64,
        0 < count(mask) < 64,
        offset + (1u64 << (count(mask) as u32)) <= old(table)@.len(),
        forall|j: int| offset <= j < old(table)@.len() ==> #[trigger] old(table)@[j] == 0,
    ensures
        r == separates(rook, square as int, mask, (64 - count(mask)) as u8, candidate),
        final(table)@.len() == old(table)@.len(),
        forall|j: int| 0 <= j < offset ==> #[trigger] final(table)@[j] == old(table)@[j],
        forall|j: int|
            offset + (1u64 << (count(mask) as u32)) <= j < old(table)@.len() ==> #[trigger] final(table)@[j] == 0,
        !r ==> forall|j: int| offset <= j < old(table)@.len() ==> #[trigger] final(table)@[j] == 0,
{
    let tlen = table.len();
    let bits = count_ones(mask);
    let span: u64 = 1u64 << bits;
    proof {
        lemma_span(bits as u64);
    }
    proof {
        assert(span == 1u64 << (count(mask) as u32));
    }
    let end = offset + span - 1;
    let m = Magic { mask, shift: 64 - bits as u8, location: offset, magic_number: candidate };
    let ghost size = table@.len();
    let ghost s = square as int;
    let mut fits = true;
    let mut counter = PermutationCounter::new(mask);
    proof {
        lemma_sub_mask(mask, mask);
        lemma_count_full(64);
        assert(mask != u64::MAX);
        assert forall|x: u64| x & m.mask == x && x > counter.current_bb implies false by {
            lemma_submask_le(x, mask);
        }
    }
    loop
        invariant_except_break
            fits,
            filled_above(table@, m, rook, s, counter.current_bb),
            entries_from_above(table@, m, rook, s, counter.current_bb, offset as int, end as int),
        invariant
            table@.len() == size,
            old(table)@.len() == size,
            tlen as int == size,
            square < 64,
            s == square as int,
            counter.starting_bb == mask,
            counter.current_bb == u64::MAX || counter.current_bb & counter.starting_bb == counter.current_bb,
            m.shift < 64,
            m.mask == mask,
            m.location == offset,
            m.magic_number == candidate,
            m.shift == (64 - count(mask)) as u8,
            offset + (u64::MAX >> m.shift) == end,
            end < size,
            offset <= end,
            forall|j: int| 0 <= j < offset ==> #[trigger] table@[j] == old(table)@[j],
            forall|j: int| end < j < size ==> #[trigger] table@[j] == 0,
        ensures
            fits ==> filled_above(table@, m, rook, s, u64::MAX),
            !fits ==> !separates(rook, s, mask, m.shift, candidate),
            !fits ==> forall|j: int| offset <= j <= end ==> #[trigger] table@[j] == 0,
        decreases steps_left(counter),
    {
        let ghost cur = counter.current_bb;
        let submask = match counter.next() {
            Some(x) => x,
            None => break,
        };
        proof {
            lemma_index_bound(m, submask);
        }
        let idx = m.generate_index(submask);
        proof {
            lemma_sub_mask(mask, mask);
            assert(submask & mask == submask);
            assert(offset <= idx <= end);
        }
        let movemask = if rook {
            initialize_rook_atkmask(submask, square)
        } else {
            initialize_bishop_atkmask(submask, square)
        };
        proof {
            if rook {
                lemma_bits_of(movemask, |t: int| rook_hit(s, submask, t));
            } else {
                lemma_bits_of(movemask, |t: int| bishop_hit(s, submask, t));
            }
            assert(movemask == slider_set(rook, s, submask));
        }
        if table[idx] == 0 || table[idx] == movemask {
            let ghost before = table@;
            table.set(idx, movemask);
            proof {
                let ncur = counter.current_bb;
                assert forall|x: u64| x & m.mask == x && (ncur == u64::MAX || x > ncur) implies 0
                    <= #[trigger] index_of(m, x) < table@.len() && table@[index_of(m, x)] == slider_set(
                    rook,
                    s,
                    x,
                ) by {
                    if x != submask {
                        if x < submask {
                            lemma_next_submask(submask, mask, x);
                            lemma_and_le((submask - 1) as u64, mask);
                        }
                        assert(x > cur);
                        lemma_index_bound(m, x);
                        if index_of(m, x) == idx {
                            lemma_slider_set_nonzero(rook, s, x);
                        }
                    }
                }
                assert forall|j: int| offset <= j <= end && #[trigger] table@[j] != 0 implies exists|x: u64|
                    x & m.mask == x && (ncur == u64::MAX || x > ncur) && index_of(m, x) == j && table@[j]
                        == slider_set(rook, s, x) by {
                    if j == idx {
                        assert(submask & m.mask == submask && index_of(m, submask) == j);
                    } else {
                        let x = choose|x: u64|
                            x & m.mask == x && (cur == u64::MAX || x > cur) && index_of(m, x) == j && before[j]
                                == slider_set(rook, s, x);
                        if cur != 0 {
                            lemma_and_le((cur - 1) as u64, mask);
                        }
                        assert(x & m.mask == x && (ncur == u64::MAX || x > ncur) && index_of(m, x) == j);
                    }
                }
            }
        } else {
            proof {
                let x = choose|x: u64|
                    x & m.mask == x && (cur == u64::MAX || x > cur) && index_of(m, x) == idx as int
                        && table@[idx as int] == slider_set(rook, s, x);
                lemma_index_bound(m, x);
                assert(magic_slot(mask, m.shift, candidate, x) == magic_slot(mask, m.shift, candidate, submask));
                assert(!separates(rook, s, mask, m.shift, candidate));
            }
            let mut index = offset;
            while index <= end
                invariant
                    table@.len() == size,
                    old(table)@.len() == size,
                    tlen as int == size,
                    end < size,
                    offset <= index <= end + 1,
                    forall|j: int| 0 <= j < offset ==> #[trigger] table@[j] == old(table)@[j],
                    forall|j: int| end < j < size ==> #[trigger] table@[j] == 0,
                    forall|j: int| offset <= j < index ==> #[trigger] table@[j] == 0,
                decreases end + 1 - index,
            {
                table.set(index as usize, 0);
                index += 1;
            }
            fits = false;
            break;
        }
    }
    if fits {
        proof {
            assert forall|x: u64, y: u64|
                x & mask == x && y & mask == y && #[trigger] magic_slot(mask, m.shift, candidate, x)
                    == #[trigger] magic_slot(mask, m.shift, candidate, y) implies slider_set(rook, s, x)
                == slider_set(rook, s, y) by {
                assert(index_of(m, x) == index_of(m, y));
            }
        }
        true
    } else {
        false
    }
}

/// The sizes of the index ranges of the masks before the `n`th: two to the number of
/// squares of each.
pub open spec fn span_total(masks: Seq<u64>, n: int) -> nat
    decreases n,
{
    if n <= 0 {
        0
    } else {
        span_total(masks, n - 1) + ((1u64 << (count(masks[n - 1]) as u32)) as nat)
    }
}

/// A rook's attacks depend only on the blockers on its relevant squares.
pub proof fn lemma_rook_relevant(s: int, occ: u64)
    requires
        0 <= s < 64,
    ensures
        rook_set(s, occ & rook_mask(s)) == rook_set(s, occ),
{
    let mask = rook_mask(s);
    let f = |u: int| rook_hit(s, 0, u) && u != s % 8 && u != s % 8 + 56 && u != s / 8 * 8 && u != s / 8 * 8 + 7;
    lemma_bits_of_holds(f);
    lemma_bits_of_holds(|u: int| rook_hit(s, occ & mask, u));
    lemma_bits_of_holds(|u: int| rook_hit(s, occ, u));
    assert forall|u: int| 0 <= u < 64 implies rook_hit(s, occ & mask, u) == rook_hit(s, occ, u) by {
        lemma_relevant_rays(s, occ, mask, u, true);
    }
    lemma_bits_of(rook_set(s, occ), |u: int| rook_hit(s, occ & mask, u));
}

/// A bishop's attacks depend only on the blockers on its relevant squares.
pub proof fn lemma_bishop_relevant(s: int, occ: u64)
    requires
        0 <= s < 64,
    ensures
        bishop_set(s, occ & bishop_mask(s)) == bishop_set(s, occ),
{
    let mask = bishop_mask(s);
    lemma_bits_of_holds(|u: int| bishop_hit(s, 0, u) && bit(0x7e7e7e7e7e7e00u64, u));
    lemma_bits_of_holds(|u: int| bishop_hit(s, occ & mask, u));
    lemma_bits_of_holds(|u: int| bishop_hit(s, occ, u));
    assert forall|u: int| 0 <= u < 64 implies bishop_hit(s, occ & mask, u) == bishop_hit(s, occ, u) by {
        lemma_relevant_rays(s, occ, mask, u, false);
    }
    lemma_bits_of(bishop_set(s, occ), |u: int| bishop_hit(s, occ & mask, u));
}

/// Along a ray of a rook (`rook`) or a bishop, the squares passed before a square it
/// reaches are relevant ones, so masking the blockers changes nothing on the ray.
proof fn lemma_relevant_ray(s: int, occ: u64, mask: u64, u: int, rook: bool, d: Direction)
    requires
        0 <= s < 64,
        0 <= u < 64,
        rook ==> mask == rook_mask(s),
        !rook ==> mask == bishop_mask(s),
        rook ==> d == Direction::N || d == Direction::E || d == Direction::S || d == Direction::W,
        !rook ==> d == Direction::NE || d == Direction::NW || d == Direction::SE || d == Direction::SW,
    ensures
        ray_hit(s, d, occ & mask, u) == ray_hit(s, d, occ, u),
{
    lemma_bits_of_holds(
        |v: int| rook_hit(s, 0, v) && v != s % 8 && v != s % 8 + 56 && v != s / 8 * 8 && v != s / 8 * 8 + 7,
    );
    lemma_bits_of_holds(|v: int| bishop_hit(s, 0, v) && bit(0x7e7e7e7e7e7e00u64, v));
    let k = ray_k(s, d, u);
    if 1 <= k <= 7 && ray_on(s, d, k) && ray_sq(s, d, k) == u {
        assert forall|j: int| 1 <= j <= k - 1 implies bit(occ & mask, #[trigger] ray_sq(s, d, j)) == bit(
            occ,
            ray_sq(s, d, j),
        ) by {
            let v = ray_sq(s, d, j);
            lemma_bit_ops(occ, mask, v);
            let (dr, df) = crate::board_state::bitboard::delta(d);
            assert(dr == 1 || dr == 0 || dr == -1);
            assert(df == 1 || df == 0 || df == -1);
            assert(j * dr == if dr == 1 { j } else if dr == 0 { 0 } else { -j }) by (nonlinear_arith)
                requires
                    dr == 1 || dr == 0 || dr == -1,
            ;
            assert(j * df == if df == 1 { j } else if df == 0 { 0 } else { -j }) by (nonlinear_arith)
                requires
                    df == 1 || df == 0 || df == -1,
            ;
            assert(k * dr == if dr == 1 { k } else if dr == 0 { 0 } else { -k }) by (nonlinear_arith)
                requires
                    dr == 1 || dr == 0 || dr == -1,
            ;
            assert(k * df == if df == 1 { k } else if df == 0 { 0 } else { -k }) by (nonlinear_arith)
                requires
                    df == 1 || df == 0 || df == -1,
            ;
            assert(j * dr * dr == if dr == 0 { 0 } else { j }) by (nonlinear_arith)
                requires
                    dr == 1 || dr == 0 || dr == -1,
            ;
            assert(j * df * df == if df == 0 { 0 } else { j }) by (nonlinear_arith)
                requires
                    df == 1 || df == 0 || df == -1,
            ;
            assert(ray_on(s, d, j));
            assert(v == (s / 8 + j * crate::board_state::bitboard::delta(d).0) * 8 + (s % 8 + j
                * crate::board_state::bitboard::delta(d).1));
            assert(v / 8 == s / 8 + j * crate::board_state::bitboard::delta(d).0);
            assert(v % 8 == s % 8 + j * crate::board_state::bitboard::delta(d).1);
            assert(ray_k(s, d, v) == j);
            assert(crate::board_state::bitboard::ray_clear(s, d, 0, j - 1)) by {
                assert forall|jj: int| 1 <= jj <= j - 1 implies !bit(0u64, #[trigger] ray_sq(s, d, jj)) by {
                    lemma_bit_ops(0, 0, ray_sq(s, d, jj));
                }
            }
            assert(ray_hit(s, d, 0, v));
            if !rook {
                lemma_rim(v as u64);
            }
        }
    }
}

/// The rim-free board holds the squares off the edge files and ranks.
proof fn lemma_rim(v: u64)
    by (bit_vector)
    requires
        v < 64,
    ensures
        ((0x7e7e7e7e7e7e00u64 >> v) & 1 == 1) == (8 <= v < 56 && v % 8 != 0 && v % 8 != 7),
{
}

/// Along each ray of a rook (`rook`) or a bishop, masking the blockers to the relevant
/// squares changes nothing.
proof fn lemma_relevant_rays(s: int, occ: u64, mask: u64, u: int, rook: bool)
    requires
        0 <= s < 64,
        0 <= u < 64,
        rook ==> mask == rook_mask(s),
        !rook ==> mask == bishop_mask(s),
    ensures
        rook ==> rook_hit(s, occ & mask, u) == rook_hit(s, occ, u),
        !rook ==> bishop_hit(s, occ & mask, u) == bishop_hit(s, occ, u),
{
    if rook {
        lemma_relevant_ray(s, occ, mask, u, rook, Direction::N);
        lemma_relevant_ray(s, occ, mask, u, rook, Direction::E);
        lemma_relevant_ray(s, occ, mask, u, rook, Direction::S);
        lemma_relevant_ray(s, occ, mask, u, rook, Direction::W);
    } else {
        lemma_relevant_ray(s, occ, mask, u, rook, Direction::NE);
        lemma_relevant_ray(s, occ, mask, u, rook, Direction::NW);
        lemma_relevant_ray(s, occ, mask, u, rook, Direction::SE);
        lemma_relevant_ray(s, occ, mask, u, rook, Direction::SW);
    }
}

/// The table's entry for a rook (`rook`) or a bishop on `s` and any occupancy, when the
/// table holds the attack set of each submask of the relevant squares at the index the
/// square's magic gives it, is the attack set through that occupancy: what
/// `rook_attacks` and `bishop_attacks` look up.
pub proof fn lemma_table_lookup(t: Table, rook: bool, s: int, occ: u64)
    requires
        0 <= s < 64,
        t.magics[s].mask == if rook { rook_mask(s) } else { bishop_mask(s) },
        forall|x: u64|
            x & t.magics[s].mask == x ==> t.atks@[#[trigger] index_of(t.magics[s], x)] == slider_set(rook, s, x),
    ensures
        t.atks@[index_of(t.magics[s], occ)] == if rook { rook_set(s, occ) } else { bishop_set(s, occ) },
{
    let m = t.magics[s];
    lemma_sub_mask(occ, m.mask);
    assert(index_of(m, occ & m.mask) == index_of(m, occ));
    if rook {
        lemma_rook_relevant(s, occ);
    } else {
        lemma_bishop_relevant(s, occ);
    }
}

/// Searches magic numbers for all 64 squares with random candidates (each the and of three
/// random words), trying at most `max_tries` candidates per square: a candidate is kept
/// when no two submasks with different attack sets share an index. `None` when a square
/// runs out of tries or the index ranges do not fit `size`, and whenever a mask is empty
/// or full; each magic found keeps apart the submasks of its square's mask whose attack
/// sets differ.
fn find_magics(masks: &[Bitboard; 64], size: usize, rook: bool, max_tries: u64) -> (r: Option<Vec<u64>>)
    ensures
        r matches Some(v) ==> v@.len() == 64 && forall|i: int|
            0 <= i < 64 ==> #[trigger] separates(rook, i, masks[i], (64 - count(masks[i])) as u8, v@[i]),
        (exists|i: int| 0 <= i < 64 && (count(#[trigger] masks[i]) == 0 || count(masks[i]) >= 64)) ==> r is None,
        r is Some ==> span_total(masks@, 64) <= size,
        max_tries == 0 ==> r is None,
{
    let mut random = match rng_from_os() {
        Some(g) => g,
        None => {
            return None;
        },
    };
    let mut table: Vec<Bitboard> = Vec::new();
    for k in 0..size
        invariant
            table@.len() == k,
            forall|j: int| 0 <= j < k ==> #[trigger] table@[j] == 0,
    {
        table.push(0);
    }
    let mut magics: Vec<u64> = Vec::new();
    let mut offset: u64 = 0;
    for i in 0..64usize
        invariant
            table@.len() == size,
            magics@.len() == i,
            forall|k: int|
                0 <= k < i ==> #[trigger] separates(rook, k, masks[k], (64 - count(masks[k])) as u8, magics@[k]),
            forall|k: int| 0 <= k < i ==> count(#[trigger] masks[k]) != 0 && count(masks[k]) < 64,
            offset == span_total(masks@, i as int),
            offset <= size,
            max_tries == 0 ==> i == 0,
            forall|j: int| offset <= j < size ==> #[trigger] table@[j] == 0,
    {
        let mask = masks[i];
        let bits = count_ones(mask);
        if bits == 0 || bits >= 64 {
            return None;
        }
        let span: u64 = 1u64 << bits;
        proof {
            assert(span_total(masks@, i as int + 1) == span_total(masks@, i as int) + span);
        }
        if offset as u128 + span as u128 > size as u128 {
            return None;
        }
        proof {
            lemma_span(bits as u64);
        }
        let end = offset + span - 1;
        let mut magic_number: u64 = 0;
        let mut found = false;
        let mut tries: u64 = 0;
        while !found
            invariant
                table@.len() == size,
                end < size,
                offset <= end,
                i < 64,
                mask == masks[i as int],
                0 < count(mask) < 64,
                bits == count(mask),
                span == 1u64 << bits,
                end == offset + span - 1,
                tries <= max_tries,
                found ==> tries >= 1,
                forall|j: int| offset <= j < size ==> #[trigger] table@[j] == 0 || found,
                found ==> separates(rook, i as int, mask, (64 - count(mask)) as u8, magic_number),
                found ==> forall|j: int| offset + span <= j < size ==> #[trigger] table@[j] == 0,
            decreases max_tries - tries,
        {
            if tries >= max_tries {
                return None;
            }
            tries += 1;
            let a = rng_next_u64(&mut random);
            let b = rng_next_u64(&mut random);
            let c = rng_next_u64(&mut random);
            let candidate = a & b & c;
            found = candidate_fits(&mut table, mask, i as u8, rook, offset, candidate);
            magic_number = candidate;
        }
        offset += span;
        magics.push(magic_number);
    }
    Some(magics)
}

/// Searches rook magic numbers, at most `max_tries` candidates per square; each magic
/// found keeps apart the submasks of its square's relevant squares whose rook attacks
/// differ.
pub fn find_rook_magics(max_tries: u64) -> (r: Option<Vec<u64>>)
    ensures
        max_tries == 0 ==> r is None,
        r matches Some(v) ==> v@.len() == 64 && forall|i: int|
            0 <= i < 64 ==> #[trigger] separates(true, i, rook_mask(i), (64 - count(rook_mask(i))) as u8, v@[i]),
{
    let masks = generate_rookmasks();
    let r = find_magics(&masks, ROOK_MAGIC_SIZE, true, max_tries);
    proof {
        if r is Some {
            let v = r->0;
            assert forall|i: int| 0 <= i < 64 implies #[trigger] separates(
                true,
                i,
                rook_mask(i),
                (64 - count(rook_mask(i))) as u8,
                v@[i],
            ) by {
                assert(masks[i] == rook_mask(i));
                assert(separates(true, i, masks[i], (64 - count(masks[i])) as u8, v@[i]));
            }
        }
    }
    r
}

/// Searches bishop magic numbers, at most `max_tries` candidates per square; each magic
/// found keeps apart the submasks of its square's relevant squares whose bishop attacks
/// differ.
pub fn find_bishop_magics(max_tries: u64) -> (r: Option<Vec<u64>>)
    ensures
        max_tries == 0 ==> r is None,
        r matches Some(v) ==> v@.len() == 64 && forall|i: int|
            0 <= i < 64 ==> #[trigger] separates(false, i, bishop_mask(i), (64 - count(bishop_mask(i))) as u8, v@[i]),
{
    let masks = generate_bishopmasks();
    let r = find_magics(&masks, BISHOP_MAGIC_SIZE, false, max_tries);
    proof {
        if r is Some {
            let v = r->0;
            assert forall|i: int| 0 <= i < 64 implies #[trigger] separates(
                false,
                i,
                bishop_mask(i),
                (64 - count(bishop_mask(i))) as u8,
                v@[i],
            ) by {
                assert(masks[i] == bishop_mask(i));
                assert(separates(false, i, masks[i], (64 - count(masks[i])) as u8, v@[i]));
            }
        }
    }
    r
}

} // verus!
