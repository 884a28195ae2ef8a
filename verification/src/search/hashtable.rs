use vstd::prelude::*;
use super::transposition::lemma_packing;
use crate::board_state::zobrist::ZobristKey;
use crate::move_generation::action::Move;

verus! {

// An entry holds the key, the best move, a score, and in one byte the node type (2 bits)
// under the depth (6 bits).
pub struct TranspositionTable {
    pub table: Vec<Entry>,
}

pub const CONVERSION: usize = 65536;  // entries per megabyte, at 16 bytes an entry

pub type NodeType = u8;

pub const BETA: NodeType = 0b10;
pub const EXACT: NodeType = 0b11;
pub const ALPHA: NodeType = 0b01;

/// The packed depth and node type byte.
pub open spec fn packed(depth: u8, nodetype: u8) -> u8 {
    ((depth << 2u8) | nodetype) as u8
}

#[derive(Clone, Copy)]
pub struct Entry {
    pub key: u64,
    pub bestmove: Move,
    pub score: i16,
    pub otherdata: u8,
}

impl Default for Entry {
    fn default() -> (r: Self)
        ensures
            r == Entry::empty(),
    {
        Self::new()
    }
}

impl TranspositionTable {
    /// A table of `size` megabytes of empty entries; never smaller than one entry.
    pub fn new(size: usize) -> (r: Self)
        requires
            size * CONVERSION <= usize::MAX,
        ensures
            r.table@.len() == if size == 0 { 1 } else { size * CONVERSION },
            forall|i: int| 0 <= i < r.table@.len() ==> r.table@[i] == Entry::empty(),
    {
        let entries = size * CONVERSION;
        if entries == 0 {
            return Self { table: vec![Entry::new(); 1] };
        }
        Self { table: vec![Entry::new(); entries] }
    }

    /// The entry a key maps to: the key modulo the table length.
    pub fn probe(&mut self, key: ZobristKey) -> (r: &mut Entry)
        requires
            old(self).table@.len() > 0,
        ensures
            *r == old(self).table@[(key as usize) as int % old(self).table@.len() as int],
            final(self).table@ == old(self).table@.update(
                (key as usize) as int % old(self).table@.len() as int,
                *final(r),
            ),
    {
        let idx = key as usize % self.table.len();
        &mut self.table[idx]
    }

    /// Resets every entry to zero key, null move, zero score and depth, and node type 0.
    pub fn clear(&mut self)
        ensures
            final(self).table@.len() == old(self).table@.len(),
            forall|i: int|
                0 <= i < final(self).table@.len() ==> final(self).table@[i] == (Entry {
                    key: 0,
                    bestmove: 0,
                    score: 0,
                    otherdata: 0,
                }),
    {
        let n = self.table.len();
        for i in 0..n
            invariant
                n == self.table@.len(),
                forall|j: int|
                    0 <= j < i ==> self.table@[j] == (Entry { key: 0, bestmove: 0, score: 0, otherdata: 0 }),
        {
            let mut e = self.table[i];
            e.store(0, 0, 0, 0, 0);
            proof {
                lemma_packing(0, 0, 0);
            }
            self.table.set(i, e);
        }
    }
}

impl Entry {
    pub open spec fn empty() -> Entry {
        Entry { key: 0, bestmove: 0, score: 0, otherdata: EXACT }
    }

    pub fn new() -> (r: Entry)
        ensures
            r == Entry::empty(),
    {
        Entry { key: 0, bestmove: 0, score: 0, otherdata: EXACT }
    }

    pub fn store(&mut self, key: u64, bestmove: Move, eval: i16, depth: u8, nodetype: NodeType)
        ensures
            *final(self) == (Entry {
                key,
                bestmove,
                score: eval,
                otherdata: packed(depth, nodetype),
            }),
            depth < 64 && nodetype < 4 ==> final(self).get_depth_spec() == depth
                && final(self).get_nodetype_spec() == nodetype,
    {
        let data = (depth << 2) | nodetype;
        proof {
            lemma_packing(depth, nodetype, 0);
        }
        self.key = key;
        self.bestmove = bestmove;
        self.score = eval;
        self.otherdata = data;
    }

    pub open spec fn get_depth_spec(&self) -> u8 {
        self.otherdata >> 2u8
    }

    pub open spec fn get_nodetype_spec(&self) -> u8 {
        self.otherdata & 0b11
    }

    pub fn get_depth(&self) -> (r: u8)
        ensures
            r == self.get_depth_spec(),
    {
        self.otherdata >> 2
    }

    pub fn get_nodetype(&self) -> (r: NodeType)
        ensures
            r == self.get_nodetype_spec(),
            r < 4,
    {
        proof {
            let d = self.otherdata;
            lemma_packing(0, 0, d);
        }
        self.otherdata & 0b11
    }

    pub fn key_equals(&self, key: ZobristKey) -> (r: bool)
        ensures
            r == (self.key == key),
    {
        self.key == key
    }
}

} // verus!
