use vstd::prelude::*;
use crate::board_state::zobrist::ZobristKey;
use crate::move_generation::action::ShortMove;

verus! {

// An entry holds the key, a short move, a score, and in one byte the node type (2 bits)
// under the depth (6 bits).
pub struct TranspositionTable {
    pub table: Vec<Entry>,
}

pub const CONVERSION: usize = 65536;  // entries per megabyte, at 16 bytes an entry

pub type NodeType = u8;

pub const NULL: NodeType = 0;
pub const BETA: NodeType = 0b10;
pub const EXACT: NodeType = 0b11;
pub const QNODE: NodeType = 0b01;

/// The packed depth and node type byte.
pub open spec fn packed(depth: u8, nodetype: u8) -> u8 {
    ((depth << 2u8) | nodetype) as u8
}

#[derive(Clone, Copy)]
pub struct Entry {
    pub key: u64,
    pub bestmove: ShortMove,
    pub score: i16,
    pub otherdata: u8,
}

impl Default for Entry {
    fn default() -> (r: Self)
        ensures
            r == Entry::empty(),
    {
        Self::new()
    }
}

impl TranspositionTable {
    /// A table of `size` megabytes of empty entries.
    pub fn new(size: usize) -> (r: Self)
        requires
            size * CONVERSION <= usize::MAX,
        ensures
            r.table@.len() == size * CONVERSION,
            forall|i: int| 0 <= i < r.table@.len() ==> r.table@[i] == Entry::empty(),
    {
        let entries = size * CONVERSION;
        Self { table: vec![Entry::new(); entries] }
    }

    /// The entry a key maps to: the key's low bits select it in a table whose length is a
    /// power of two.
    pub fn probe(&mut self, key: ZobristKey) -> (r: &mut Entry)
        requires
            old(self).table@.len() > 0,
        ensures
            *r == old(self).table@[((key as usize) & ((old(self).table@.len() - 1) as usize)) as int],
            final(self).table@ == old(self).table@.update(
                ((key as usize) & ((old(self).table@.len() - 1) as usize)) as int,
                *final(r),
            ),
    {
        let idx = key as usize & (self.table.len() - 1);
        proof {
            let (k, n) = (key as usize, (self.table@.len() - 1) as usize);
            assert(k & n <= n) by (bit_vector);
        }
        &mut self.table[idx]
    }

    /// Empties the table.
    pub fn clear(&mut self)
        ensures
            final(self).table@ == Seq::<Entry>::empty(),
    {
        self.table.clear();
    }
}

impl Entry {
    pub open spec fn empty() -> Entry {
        Entry { key: 0, bestmove: 0, score: 0, otherdata: 0 }
    }

    pub fn new() -> (r: Entry)
        ensures
            r == Entry::empty(),
    {
        Entry { key: 0, bestmove: 0, score: 0, otherdata: 0 }
    }

    pub fn store(&mut self, key: u64, bestmove: ShortMove, eval: i16, depth: u8, nodetype: NodeType)
        ensures
            *final(self) == (Entry {
                key,
                bestmove,
                score: eval,
                otherdata: packed(depth, nodetype),
            }),
            depth < 64 && nodetype < 4 ==> final(self).get_depth_spec() == depth
                && final(self).get_nodetype_spec() == nodetype,
    {
        let data = (depth << 2) | nodetype;
        proof {
            lemma_packing(depth, nodetype, 0);
        }
        self.key = key;
        self.bestmove = bestmove;
        self.score = eval;
        self.otherdata = data;
    }

    pub open spec fn get_depth_spec(&self) -> u8 {
        self.otherdata >> 2u8
    }

    pub open spec fn get_nodetype_spec(&self) -> u8 {
        self.otherdata & 0b11
    }

    pub fn get_depth(&self) -> (r: u8)
        ensures
            r == self.get_depth_spec(),
    {
        self.otherdata >> 2
    }

    pub fn get_nodetype(&self) -> (r: NodeType)
        ensures
            r == self.get_nodetype_spec(),
            r < 4,
    {
        proof {
            let d = self.otherdata;
            lemma_packing(0, 0, d);
        }
        self.otherdata & 0b11
    }

    pub fn key_equals(&self, key: ZobristKey) -> (r: bool)
        ensures
            r == (self.key == key),
    {
        self.key == key
    }
}

/// Depth and node type share one byte: the depth above two bits of node type.
pub proof fn lemma_packing(depth: u8, nodetype: u8, d: u8)
    by (bit_vector)
    ensures
        depth < 64 && nodetype < 4 ==> ((depth << 2u8) | nodetype) >> 2u8 == depth && ((depth
            << 2u8) | nodetype) & 3 == nodetype,
        d & 3 < 4,
        ((0u8 << 2u8) | 0u8) == 0u8,
{
}

} // verus!
