use vstd::prelude::*;
use crate::board_state::bitboard::Bitboard;
use crate::board_state::board::Board;
use crate::board_state::typedefs::KING;
use crate::board_state::zobrist::{Zobrist, ZobristKey};
use crate::move_generation::action::Move;
use crate::move_generation::movegen::{capped, generated};
use crate::text::{
    chars_of, find_separator, parse_u64, parse_u8, separator_from, slice_chars, string_from_chars, u64_of,
    u8_of,
};

verus! {

/// A stored node count: the key of the position, the depth counted to and the count.
#[derive(Clone, Copy)]
pub struct PerftEntry {
    pub key: ZobristKey,
    pub depth: u8,
    pub nodecount: u32,
}

/// How many moves of `moves` fit the board `b`, counted in wrapping 32-bit arithmetic.
pub open spec fn fitting_count(b: Board, moves: Seq<Move>) -> u32
    decreases moves.len(),
{
    if moves.len() == 0 {
        0
    } else {
        let rest = fitting_count(b, moves.drop_last());
        if b.fits(moves.last()) {
            if rest == u32::MAX {
                0
            } else {
                (rest + 1) as u32
            }
        } else {
            rest
        }
    }
}

/// The count `perft` makes of `b` at `depth`: 1 at depth 0; `None` without both kings;
/// one ply from the leaves the number of generated moves; deeper, the wrapping 32-bit sum
/// over the generated moves that fit `b` of the count one ply less in the board each
/// leads to, `None` as soon as one of those is `None`.
pub open spec fn perft_count(b: Board, depth: nat, z: &Zobrist) -> Option<u32>
    decreases depth + 1, 0nat,
{
    if depth == 0 {
        Some(1u32)
    } else if !b.has_kings() {
        None
    } else if depth == 1 {
        Some(capped(generated(b, true, true)).len() as u32)
    } else {
        let g = capped(generated(b, true, true));
        perft_sum(b, depth, z, g, g.len())
    }
}

/// The sum `perft_count` makes over the first `n` moves of `g` at `depth` (at least 1).
pub open spec fn perft_sum(b: Board, depth: nat, z: &Zobrist, g: Seq<Move>, n: nat) -> Option<u32>
    decreases depth, n,
{
    if n == 0 || depth == 0 {
        Some(0u32)
    } else {
        match perft_sum(b, depth, z, g, (n - 1) as nat) {
            None => None,
            Some(acc) => if b.fits(g[n - 1]) {
                match perft_count(b.after(g[n - 1], z), (depth - 1) as nat, z) {
                    Some(c) => Some(vstd::wrapping::u32_specs::wrapping_add(acc, c)),
                    None => None,
                }
            } else {
                Some(acc)
            },
        }
    }
}

/// Once the sum is `None` it stays `None` over more moves.
pub proof fn lemma_perft_sum_none(b: Board, depth: nat, z: &Zobrist, g: Seq<Move>, i: nat, n: nat)
    requires
        i <= n,
        perft_sum(b, depth, z, g, i) is None,
    ensures
        perft_sum(b, depth, z, g, n) is None,
    decreases n,
{
    if i < n {
        lemma_perft_sum_none(b, depth, z, g, i, (n - 1) as nat);
    }
}

/// The leaves of the move tree `depth` plies below `b`, counting only the generated moves
/// that fit, in wrapping 32-bit arithmetic: 1 at depth 0, `None` when a position without
/// both kings is reached above the leaves.
pub open spec fn tree_count(b: Board, depth: nat, z: &Zobrist) -> Option<u32>
    decreases depth + 1, 0nat,
{
    if depth == 0 {
        Some(1u32)
    } else if !b.has_kings() {
        None
    } else {
        let g = capped(generated(b, true, true));
        tree_sum(b, depth, z, g, g.len())
    }
}

/// The sum `tree_count` makes over the first `n` moves of `g` at `depth` (at least 1).
pub open spec fn tree_sum(b: Board, depth: nat, z: &Zobrist, g: Seq<Move>, n: nat) -> Option<u32>
    decreases depth, n,
{
    if n == 0 || depth == 0 {
        Some(0u32)
    } else {
        match tree_sum(b, depth, z, g, (n - 1) as nat) {
            None => None,
            Some(acc) => if b.fits(g[n - 1]) {
                match tree_count(b.after(g[n - 1], z), (depth - 1) as nat, z) {
                    Some(c) => Some(vstd::wrapping::u32_specs::wrapping_add(acc, c)),
                    None => None,
                }
            } else {
                Some(acc)
            },
        }
    }
}

/// Once the sum is `None` it stays `None` over more moves.
pub proof fn lemma_tree_sum_none(b: Board, depth: nat, z: &Zobrist, g: Seq<Move>, i: nat, n: nat)
    requires
        i <= n,
        tree_sum(b, depth, z, g, i) is None,
    ensures
        tree_sum(b, depth, z, g, n) is None,
    decreases n,
{
    if i < n {
        lemma_tree_sum_none(b, depth, z, g, i, (n - 1) as nat);
    }
}

/// Where the moves of `path` lead from `b`, each a generated move that fits the board it
/// is played on (which has both kings); `None` when one is not.
pub open spec fn walk(b: Board, path: Seq<Move>, z: &Zobrist) -> Option<Board>
    decreases path.len(),
{
    if path.len() == 0 {
        Some(b)
    } else if b.has_kings() && capped(generated(b, true, true)).contains(path[0]) && b.fits(path[0]) {
        walk(b.after(path[0], z), path.drop_first(), z)
    } else {
        None
    }
}

/// `x` is a position of the move tree `depth` plies deep below `b`, `b` included.
pub open spec fn in_tree(b: Board, depth: nat, z: &Zobrist, x: Board) -> bool {
    exists|path: Seq<Move>| path.len() <= depth && #[trigger] walk(b, path, z) == Some(x)
}

/// Within the tree below `b`, two positions with the same key have the same counts.
pub open spec fn keys_tell_counts(b: Board, depth: nat, z: &Zobrist) -> bool {
    forall|x: Board, y: Board, e: nat|
        #![trigger in_tree(b, depth, z, x), in_tree(b, depth, z, y), tree_count(x, e, z)]
        in_tree(b, depth, z, x) && in_tree(b, depth, z, y) && x.zobrist_key == y.zobrist_key
            ==> tree_count(x, e, z) == tree_count(y, e, z)
}

/// Each entry of the table that a position of the tree below `b` looks up holds that
/// position's count at the entry's depth.
pub open spec fn table_right(t: Seq<PerftEntry>, b: Board, depth: nat, z: &Zobrist) -> bool {
    forall|i: int, x: Board|
        #![trigger t[i], in_tree(b, depth, z, x)]
        0 <= i < t.len() && in_tree(b, depth, z, x) && t[i].depth > 0 && t[i].key == x.zobrist_key
            ==> tree_count(x, t[i].depth as nat, z) == Some(t[i].nodecount)
}

/// `e` holds the key, a depth and the count at that depth of a position of the tree below `b`.
pub open spec fn true_entry(e: PerftEntry, b: Board, depth: nat, z: &Zobrist) -> bool {
    exists|p: Board|
        #[trigger] in_tree(b, depth, z, p) && e.key == p.zobrist_key && tree_count(p, e.depth as nat, z) == Some(
            e.nodecount,
        )
}

/// `t1` is `t0` with some entries replaced by true entries of the tree below `b`.
pub open spec fn table_changes(t0: Seq<PerftEntry>, t1: Seq<PerftEntry>, b: Board, depth: nat, z: &Zobrist) -> bool {
    &&& t1.len() == t0.len()
    &&& forall|i: int| 0 <= i < t1.len() ==> #[trigger] t1[i] == t0[i] || true_entry(t1[i], b, depth, z)
}

/// A table whose entries all have depth 0 (as a new one has) is right for any tree.
pub proof fn lemma_fresh_table_right(t: Seq<PerftEntry>, b: Board, depth: nat, z: &Zobrist)
    requires
        forall|i: int| 0 <= i < t.len() ==> (#[trigger] t[i]).depth == 0,
    ensures
        table_right(t, b, depth, z),
{
}

/// The tree below a child of `b` lies in the tree below `b`.
proof fn lemma_child_tree(b: Board, depth: nat, z: &Zobrist, k: int, x: Board)
    requires
        depth > 0,
        b.has_kings(),
        0 <= k < capped(generated(b, true, true)).len(),
        b.fits(capped(generated(b, true, true))[k]),
        in_tree(b.after(capped(generated(b, true, true))[k], z), (depth - 1) as nat, z, x),
    ensures
        in_tree(b, depth, z, x),
{
    let g = capped(generated(b, true, true));
    let c = b.after(g[k], z);
    let p = choose|path: Seq<Move>| path.len() <= (depth - 1) as nat && #[trigger] walk(c, path, z) == Some(x);
    let q = seq![g[k]] + p;
    assert(q[0] == g[k]);
    assert(q.drop_first() =~= p);
    assert(g.contains(g[k]));
    assert(walk(b, q, z) == Some(x));
}

/// A board is in the tree below itself.
proof fn lemma_root_in_tree(b: Board, depth: nat, z: &Zobrist)
    ensures
        in_tree(b, depth, z, b),
{
    assert(walk(b, Seq::<Move>::empty(), z) == Some(b));
}

/// What holds of the tree below `b` holds of the tree below its child `k`.
proof fn lemma_child_facts(b: Board, depth: nat, z: &Zobrist, k: int, t: Seq<PerftEntry>)
    requires
        depth > 0,
        b.has_kings(),
        0 <= k < capped(generated(b, true, true)).len(),
        b.fits(capped(generated(b, true, true))[k]),
    ensures
        keys_tell_counts(b, depth, z) ==> keys_tell_counts(
            b.after(capped(generated(b, true, true))[k], z),
            (depth - 1) as nat,
            z,
        ),
        table_right(t, b, depth, z) ==> table_right(
            t,
            b.after(capped(generated(b, true, true))[k], z),
            (depth - 1) as nat,
            z,
        ),
        forall|e: PerftEntry|
            true_entry(e, b.after(capped(generated(b, true, true))[k], z), (depth - 1) as nat, z) ==> #[trigger] true_entry(
                e,
                b,
                depth,
                z,
            ),
{
    let c = b.after(capped(generated(b, true, true))[k], z);
    let d1 = (depth - 1) as nat;
    assert forall|x: Board| in_tree(c, d1, z, x) implies #[trigger] in_tree(b, depth, z, x) by {
        lemma_child_tree(b, depth, z, k, x);
    }
    assert forall|e: PerftEntry| true_entry(e, c, d1, z) implies #[trigger] true_entry(e, b, depth, z) by {
        let p = choose|p: Board|
            #[trigger] in_tree(c, d1, z, p) && e.key == p.zobrist_key && tree_count(p, e.depth as nat, z) == Some(
                e.nodecount,
            );
        assert(in_tree(b, depth, z, p));
    }
    if keys_tell_counts(b, depth, z) {
        assert forall|x: Board, y: Board, e: nat|
            #![trigger in_tree(c, d1, z, x), in_tree(c, d1, z, y), tree_count(x, e, z)]
            in_tree(c, d1, z, x) && in_tree(c, d1, z, y) && x.zobrist_key == y.zobrist_key implies tree_count(
                x,
                e,
                z,
            ) == tree_count(y, e, z) by {
            assert(in_tree(b, depth, z, x) && in_tree(b, depth, z, y));
        }
    }
    if table_right(t, b, depth, z) {
        assert forall|i: int, x: Board|
            #![trigger t[i], in_tree(c, d1, z, x)]
            0 <= i < t.len() && in_tree(c, d1, z, x) && t[i].depth > 0 && t[i].key == x.zobrist_key implies tree_count(
                x,
                t[i].depth as nat,
                z,
            ) == Some(t[i].nodecount) by {
            assert(in_tree(b, depth, z, x));
        }
    }
}

/// Replacing entries by true entries keeps a table right where keys tell counts.
proof fn lemma_changes_right(t0: Seq<PerftEntry>, t1: Seq<PerftEntry>, b: Board, depth: nat, z: &Zobrist)
    requires
        keys_tell_counts(b, depth, z),
        table_right(t0, b, depth, z),
        table_changes(t0, t1, b, depth, z),
    ensures
        table_right(t1, b, depth, z),
{
    assert forall|i: int, x: Board|
        0 <= i < t1.len() && #[trigger] in_tree(b, depth, z, x) && (#[trigger] t1[i]).depth > 0 && t1[i].key
            == x.zobrist_key implies tree_count(x, t1[i].depth as nat, z) == Some(t1[i].nodecount) by {
        if t1[i] != t0[i] {
            let p = choose|p: Board|
                #[trigger] in_tree(b, depth, z, p) && t1[i].key == p.zobrist_key && tree_count(
                    p,
                    t1[i].depth as nat,
                    z,
                ) == Some(t1[i].nodecount);
            assert(tree_count(x, t1[i].depth as nat, z) == tree_count(p, t1[i].depth as nat, z));
        } else {
            assert(t0[i] == t1[i]);
        }
    }
}

impl Board {
    /// Both kings are on the board, which move generation needs.
    pub open spec fn has_kings(&self) -> bool {
        self.of(KING as int, self.tomove) != 0 && self.of(KING as int, !self.tomove) != 0
    }

    pub fn kings_present(&self) -> (r: bool)
        ensures
            r == self.has_kings(),
    {
        self.get_pieces(KING, self.tomove) != 0 && self.get_pieces(KING, !self.tomove) != 0
    }

    /// Counts the leaves of the move tree `depth` plies deep, counting the generated moves
    /// in bulk one ply from the leaves (counts wrap as `u32`). `None` when a position
    /// without both kings is reached, which only an illegal position leads to.
    pub fn perft(&mut self, depth: u8, z: &Zobrist) -> (r: Option<u32>)
        requires
            old(self).wf(),
            old(self).eval_ok(),
            z.wf(),
        ensures
            *final(self) == *old(self),
            depth == 0 ==> r == Some(1u32),
            depth > 0 && !old(self).has_kings() ==> r is None,
            depth == 1 && old(self).has_kings() ==> r == Some(capped(generated(*old(self), true, true)).len() as u32),
            old(self).hash_ok(z) ==> r == perft_count(*old(self), depth as nat, z),
        decreases depth,
    {
        if depth == 0 {
            return Some(1);
        }
        if !self.kings_present() {
            return None;
        }
        proof {
            self.lemma_phase_bounds(6);
        }
        let moves = self.generate_moves::<true, true>(z);
        if depth == 1 {
            return Some(moves.length as u32);
        }
        let mut accum: u32 = 0;
        let mut i: usize = 0;
        while i < moves.length
            invariant
                *self == *old(self),
                self.wf(),
                self.eval_ok(),
                z.wf(),
                depth > 1,
                moves.wf(),
                i <= moves.length,
                moves@ == capped(generated(*old(self), true, true)),
                old(self).has_kings(),
                old(self).hash_ok(z) ==> perft_sum(*old(self), depth as nat, z, moves@, i as nat) == Some(
                    accum,
                ),
            decreases moves.length - i,
        {
            let action = *moves.get(i);
            if self.move_fits(action) {
                proof {
                    self.lemma_phase_bounds(6);
                }
                let mut newb = self.do_move(action, z);
                match newb.perft(depth - 1, z) {
                    Some(n) => {
                        accum = accum.wrapping_add(n);
                    },
                    None => {
                        proof {
                            if old(self).hash_ok(z) {
                                assert(perft_sum(*old(self), depth as nat, z, moves@, (i + 1) as nat) is None);
                                lemma_perft_sum_none(
                                    *old(self),
                                    depth as nat,
                                    z,
                                    moves@,
                                    (i + 1) as nat,
                                    moves@.len(),
                                );
                            }
                        }
                        return None;
                    },
                }
            }
            i += 1;
        }
        Some(accum)
    }

    /// `perft` with a table of counts already made, indexed by the key modulo the table's
    /// length; each count made is stored.
    pub fn hashed_perft(&mut self, depth: u8, tt: &mut Vec<PerftEntry>, z: &Zobrist) -> (r: Option<u32>)
        requires
            old(self).wf(),
            old(self).eval_ok(),
            old(tt)@.len() > 0,
            z.wf(),
        ensures
            *final(self) == *old(self),
            final(tt)@.len() == old(tt)@.len(),
            depth == 0 ==> r == Some(1u32),
            ({
                let idx = (old(self).zobrist_key % (old(tt)@.len() as u64)) as int;
                let hit = old(tt)@[idx].depth == depth && old(tt)@[idx].key == old(self).zobrist_key;
                &&& depth > 0 && hit ==> r == Some(old(tt)@[idx].nodecount)
                &&& depth > 0 && !hit && !old(self).has_kings() ==> r is None
                &&& depth == 1 && !hit && old(self).has_kings() ==> r == Some(
                    fitting_count(*old(self), capped(generated(*old(self), true, true))),
                )
                &&& depth > 0 ==> (r matches Some(n) ==> final(tt)@[idx] == (PerftEntry {
                    key: old(self).zobrist_key,
                    depth,
                    nodecount: n,
                }))
            }),
            old(self).hash_ok(z) && keys_tell_counts(*old(self), depth as nat, z) && table_right(
                old(tt)@,
                *old(self),
                depth as nat,
                z,
            ) ==> r == tree_count(*old(self), depth as nat, z) && table_changes(
                old(tt)@,
                final(tt)@,
                *old(self),
                depth as nat,
                z,
            ),
        decreases depth,
    {
        if depth == 0 {
            return Some(1);
        }
        let ghost b0 = *old(self);
        let ghost d0 = depth as nat;
        let ghost t0 = old(tt)@;
        let ghost good = b0.hash_ok(z) && keys_tell_counts(b0, d0, z) && table_right(t0, b0, d0, z);
        let key = self.zobrist_key;
        let idx = (key % (tt.len() as u64)) as usize;
        let entry = tt[idx];
        if entry.depth == depth && entry.key == key {
            proof {
                if good {
                    lemma_root_in_tree(b0, d0, z);
                    assert(t0[idx as int] == entry);
                }
            }
            return Some(entry.nodecount);
        }
        if !self.kings_present() {
            return None;
        }
        proof {
            self.lemma_phase_bounds(6);
        }
        let moves = self.generate_moves::<true, true>(z);
        let mut accum: u32 = 0;
        let mut i: usize = 0;
        while i < moves.length
            invariant
                *self == *old(self),
                key == old(self).zobrist_key,
                idx == (key % (old(tt)@.len() as u64)) as int,
                !(old(tt)@[idx as int].depth == depth && old(tt)@[idx as int].key == key),
                self.wf(),
                self.eval_ok(),
                z.wf(),
                depth > 0,
                moves.wf(),
                i <= moves.length,
                tt@.len() == old(tt)@.len(),
                tt@.len() > 0,
                moves@ == capped(generated(*old(self), true, true)),
                depth == 1 ==> accum == fitting_count(*old(self), moves@.take(i as int)),
                b0 == *old(self),
                d0 == depth as nat,
                t0 == old(tt)@,
                b0.has_kings(),
                good == (b0.hash_ok(z) && keys_tell_counts(b0, d0, z) && table_right(t0, b0, d0, z)),
                good ==> tree_sum(b0, d0, z, moves@, i as nat) == Some(accum),
                good ==> table_changes(t0, tt@, b0, d0, z),
            decreases moves.length - i,
        {
            let action = *moves.get(i);
            if self.move_fits(action) {
                proof {
                    self.lemma_phase_bounds(6);
                }
                let mut newb = self.do_move(action, z);
                let ghost tb = tt@;
                proof {
                    if good {
                        lemma_changes_right(t0, tb, b0, d0, z);
                        lemma_child_facts(b0, d0, z, i as int, tb);
                    }
                }
                match newb.hashed_perft(depth - 1, tt, z) {
                    Some(n) => {
                        accum = accum.wrapping_add(n);
                    },
                    None => {
                        proof {
                            if good {
                                lemma_tree_sum_none(b0, d0, z, moves@, (i + 1) as nat, moves@.len());
                                lemma_child_facts(b0, d0, z, i as int, tb);
                                assert forall|j: int| 0 <= j < tt@.len() implies #[trigger] tt@[j] == t0[j]
                                    || true_entry(tt@[j], b0, d0, z) by {
                                    if tt@[j] != tb[j] {
                                        assert(true_entry(tt@[j], newb, (d0 - 1) as nat, z));
                                    }
                                }
                            }
                        }
                        return None;
                    },
                }
                proof {
                    if good {
                        lemma_child_facts(b0, d0, z, i as int, tb);
                        assert forall|j: int| 0 <= j < tt@.len() implies #[trigger] tt@[j] == t0[j]
                            || true_entry(tt@[j], b0, d0, z) by {
                            if tt@[j] != tb[j] {
                                assert(true_entry(tt@[j], newb, (d0 - 1) as nat, z));
                            }
                        }
                    }
                }
            }
            proof {
                assert(moves@.take(i + 1).drop_last() =~= moves@.take(i as int));
            }
            i += 1;
        }
        proof {
            assert(moves@.take(i as int) =~= moves@);
        }
        let ghost tb = tt@;
        tt.set(idx, PerftEntry { key, depth, nodecount: accum });
        proof {
            if good {
                lemma_root_in_tree(b0, d0, z);
                assert(true_entry(tt@[idx as int], b0, d0, z));
                assert forall|j: int| 0 <= j < tt@.len() implies #[trigger] tt@[j] == t0[j] || true_entry(
                    tt@[j],
                    b0,
                    d0,
                    z,
                ) by {
                    if j != idx {
                        assert(tt@[j] == tb[j]);
                    }
                }
            }
        }
        Some(accum)
    }
}

/// Why a line of a perft test file does not read.
#[derive(Clone, Copy, PartialEq, Eq, Structural, Debug)]
pub enum PerftCaseError {
    /// Fewer than the three fields `fen; depth; count`.
    Fields,
    /// A depth that is not a number from 0 to 255.
    Depth,
    /// A count that is not a 32-bit number.
    Count,
}

/// `s` without the character `c`.
pub open spec fn without_char(s: Seq<char>, c: char) -> Seq<char>
    decreases s.len(),
{
    if s.len() == 0 {
        s
    } else {
        without_char(s.drop_last(), c) + if s.last() == c { Seq::empty() } else { seq![s.last()] }
    }
}

/// A line `fen; depth; count` of a perft test file, its fields split at `"; "`: the FEN
/// text, the depth, and the count (its `;` characters dropped). The depth is read before
/// the count's field is looked for.
pub open spec fn perft_case(s: Seq<char>) -> Result<(Seq<char>, u8, u32), PerftCaseError> {
    match separator_from(s, ';', 0) {
        None => Err(PerftCaseError::Fields),
        Some(i1) => {
            let i2 = separator_from(s, ';', i1 + 2);
            let depth_end = match i2 {
                Some(j) => j,
                None => s.len() as int,
            };
            match u8_of(s.subrange(i1 + 2, depth_end)) {
                None => Err(PerftCaseError::Depth),
                Some(depth) => match i2 {
                    None => Err(PerftCaseError::Fields),
                    Some(j) => {
                        let end = match separator_from(s, ';', j + 2) {
                            Some(k) => k,
                            None => s.len() as int,
                        };
                        match u64_of(without_char(s.subrange(j + 2, end), ';')) {
                            Some(v) => if v <= u32::MAX {
                                Ok((s.subrange(0, i1), depth, v as u32))
                            } else {
                                Err(PerftCaseError::Count)
                            },
                            None => Err(PerftCaseError::Count),
                        }
                    },
                },
            }
        },
    }
}

/// The characters of `s` other than `c`.
fn drop_char(s: &Vec<char>, c: char) -> (r: Vec<char>)
    ensures
        r@ == without_char(s@, c),
{
    let mut out: Vec<char> = Vec::new();
    let mut i: usize = 0;
    while i < s.len()
        invariant
            i <= s@.len(),
            out@ == without_char(s@.take(i as int), c),
        decreases s.len() - i,
    {
        assert(s@.take(i + 1).drop_last() =~= s@.take(i as int));
        if s[i] != c {
            out.push(s[i]);
        }
        i += 1;
        assert(out@ =~= without_char(s@.take(i as int), c));
    }
    assert(s@.take(s@.len() as int) =~= s@);
    out
}

/// Reads a line of a perft test file, as `perft_case` says.
pub fn parse_perft_case(line: &str) -> (r: Result<(String, u8, u32), PerftCaseError>)
    ensures
        match perft_case(line@) {
            Ok((fen, depth, count)) => r matches Ok((f, d, c)) && f@ == fen && d == depth && c == count,
            Err(e) => r == Err::<(String, u8, u32), PerftCaseError>(e),
        },
{
    let s = chars_of(line);
    let i1 = match find_separator(&s, ';', 0) {
        Some(i) => i,
        None => {
            return Err(PerftCaseError::Fields);
        },
    };
    let i2 = find_separator(&s, ';', i1 + 2);
    let depth_end = match i2 {
        Some(j) => j,
        None => s.len(),
    };
    let depth = match parse_u8(&slice_chars(&s, i1 + 2, depth_end)) {
        Some(d) => d,
        None => {
            return Err(PerftCaseError::Depth);
        },
    };
    let j = match i2 {
        Some(j) => j,
        None => {
            return Err(PerftCaseError::Fields);
        },
    };
    let end = match find_separator(&s, ';', j + 2) {
        Some(k) => k,
        None => s.len(),
    };
    let digits = drop_char(&slice_chars(&s, j + 2, end), ';');
    match parse_u64(&digits) {
        Some(v) => {
            if v <= 0xffff_ffff {
                let fen = slice_chars(&s, 0, i1);
                Ok((string_from_chars(&fen), depth, v as u32))
            } else {
                Err(PerftCaseError::Count)
            }
        },
        None => Err(PerftCaseError::Count),
    }
}

} // verus!
