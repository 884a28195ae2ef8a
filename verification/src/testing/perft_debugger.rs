use vstd::prelude::*;
use crate::board_state::board::Board;
use crate::board_state::zobrist::Zobrist;
use crate::move_generation::action::{algebraic, Action};
use crate::move_generation::movegen::{capped, generated};
use crate::testing::perft::perft_count;
use crate::text::{chars_of, find_separator, parse_u64, separator_from, slice_chars, string_from_chars, u64_of};

verus! {

/// A move's name and the number of leaf nodes below it.
pub struct MoveData {
    pub name: String,
    pub count: u32,
}

impl Board {
    /// Each entry is named after a move that can be played here.
    pub open spec fn names_moves(&self, v: Seq<MoveData>) -> bool {
        forall|i: int|
            #![trigger v[i]]
            0 <= i < v.len() ==> exists|m: u32| #[trigger] self.sound_move(m) && v[i].name@ == algebraic(m)
    }

    /// For each move generated here, its name and the perft count `depth - 1` plies deep
    /// from the position it leads to. `None` when a position perft cannot count is
    /// reached (a king missing, or a generated move that does not fit the board).
    pub fn debug_perft(&self, depth: u8, z: &Zobrist) -> (r: Option<Vec<MoveData>>)
        requires
            self.wf(),
            self.eval_ok(),
            z.wf(),
            depth != 0,
        ensures
            r matches Some(v) ==> self.names_moves(v@),
            !self.has_kings() ==> r is None,
            r matches Some(v) ==> v@.len() == capped(generated(*self, true, true)).len() && forall|k: int|
                0 <= k < v@.len() ==> #[trigger] v@[k].name@ == algebraic(capped(generated(*self, true, true))[k]),
            depth == 1 && self.has_kings() && (forall|k: int|
                0 <= k < capped(generated(*self, true, true)).len() ==> self.fits(
                    #[trigger] capped(generated(*self, true, true))[k],
                )) ==> (r matches Some(v) && forall|k: int| 0 <= k < v@.len() ==> #[trigger] v@[k].count == 1),
            ({
                let g = capped(generated(*self, true, true));
                &&& self.hash_ok(z) ==> (r is Some <==> self.has_kings() && forall|k: int|
                    0 <= k < g.len() ==> self.fits(#[trigger] g[k]) && perft_count(
                        self.after(g[k], z),
                        (depth - 1) as nat,
                        z,
                    ) is Some)
                &&& self.hash_ok(z) ==> (r matches Some(v) ==> forall|k: int|
                    0 <= k < v@.len() ==> Some(#[trigger] v@[k].count) == perft_count(
                        self.after(g[k], z),
                        (depth - 1) as nat,
                        z,
                    ))
            }),
    {
        if !self.kings_present() {
            return None;
        }
        let mut b = *self;
        proof {
            b.lemma_phase_bounds(6);
        }
        let moves = b.generate_moves::<true, true>(z);
        let mut out: Vec<MoveData> = Vec::new();
        let mut i: usize = 0;
        while i < moves.length
            invariant
                b == *self,
                self.wf(),
                self.eval_ok(),
                z.wf(),
                depth != 0,
                moves.wf(),
                self.all_sound(moves@),
                i <= moves.length,
                self.names_moves(out@),
                moves@ == capped(generated(*self, true, true)),
                out@.len() == i,
                forall|k: int| 0 <= k < i ==> #[trigger] out@[k].name@ == algebraic(moves@[k]),
                depth == 1 ==> forall|k: int| 0 <= k < i ==> #[trigger] out@[k].count == 1,
                self.has_kings(),
                self.hash_ok(z) ==> forall|k: int|
                    0 <= k < i ==> self.fits(#[trigger] moves@[k]) && Some(out@[k].count) == perft_count(
                        self.after(moves@[k], z),
                        (depth - 1) as nat,
                        z,
                    ),
            decreases moves.length - i,
        {
            let action = *moves.get(i);
            if !self.move_fits(action) {
                return None;
            }
            proof {
                self.lemma_phase_bounds(6);
                assert(self.sound_move(moves@[i as int]));
            }
            let mut next = self.do_move(action, z);
            let count = match next.perft(depth - 1, z) {
                Some(n) => n,
                None => {
                    return None;
                },
            };
            let name = action.to_algebraic();
            let ghost before = out@;
            out.push(MoveData { name, count });
            proof {
                assert forall|k: int| #![trigger out@[k]] 0 <= k < out@.len() implies exists|m: u32|
                    #[trigger] self.sound_move(m) && out@[k].name@ == algebraic(m) by {
                    if k < before.len() {
                        assert(out@[k] == before[k]);
                    } else {
                        assert(self.sound_move(action));
                    }
                }
                assert forall|k: int| 0 <= k < i + 1 implies #[trigger] out@[k].name@ == algebraic(moves@[k]) by {
                    if k < before.len() {
                        assert(out@[k] == before[k]);
                    }
                }
                if depth == 1 {
                    assert forall|k: int| 0 <= k < i + 1 implies #[trigger] out@[k].count == 1 by {
                        if k < before.len() {
                            assert(out@[k] == before[k]);
                        }
                    }
                }
                if self.hash_ok(z) {
                    assert forall|k: int| 0 <= k < i + 1 implies self.fits(#[trigger] moves@[k]) && Some(
                        out@[k].count,
                    ) == perft_count(self.after(moves@[k], z), (depth - 1) as nat, z) by {
                        if k < before.len() {
                            assert(out@[k] == before[k]);
                        }
                    }
                }
            }
            i += 1;
        }
        Some(out)
    }
}

/// What a reference engine's line `name: count` says, read as `str::split(": ")` and
/// `str::parse::<u32>` read it: the text before the first `": "`, and the number between
/// it and the next `": "` (or the end). `None` when there is no `": "` or no number.
pub open spec fn reference_line(s: Seq<char>) -> Option<(Seq<char>, u32)> {
    match separator_from(s, ':', 0) {
        None => None,
        Some(i) => {
            let end = match separator_from(s, ':', i + 2) {
                Some(j) => j,
                None => s.len() as int,
            };
            match u64_of(s.subrange(i + 2, end)) {
                Some(v) => if v <= u32::MAX {
                    Some((s.subrange(0, i), v as u32))
                } else {
                    None
                },
                None => None,
            }
        },
    }
}

/// Reads a reference engine's line `name: count`, as `reference_line` says.
pub fn parse_reference_line(line: &str) -> (r: Option<MoveData>)
    ensures
        match reference_line(line@) {
            Some((name, count)) => r matches Some(d) && d.name@ == name && d.count == count,
            None => r is None,
        },
{
    let s = chars_of(line);
    let i = match find_separator(&s, ':', 0) {
        Some(i) => i,
        None => {
            return None;
        },
    };
    let end = match find_separator(&s, ':', i + 2) {
        Some(j) => j,
        None => s.len(),
    };
    let digits = slice_chars(&s, i + 2, end);
    match parse_u64(&digits) {
        Some(v) => {
            if v <= 0xffff_ffff {
                let name_chars = slice_chars(&s, 0, i);
                Some(MoveData { name: string_from_chars(&name_chars), count: v as u32 })
            } else {
                None
            }
        },
        None => None,
    }
}

/// How a move's count compares with a reference engine's count for it.
pub enum PerftCheck {
    /// The reference has the move and it was not generated here.
    Missing { name: String, count: u32 },
    /// Both count the move alike.
    Agrees { name: String, count: u32 },
    /// Both have the move, with different counts.
    Differs { name: String, expected: u32, found: u32 },
    /// The move was generated here and the reference does not have it.
    Extra { name: String },
}

/// The first index at or after `i` of an entry named `name`.
pub open spec fn named_from(list: Seq<MoveData>, name: Seq<char>, i: int) -> Option<int>
    decreases list.len() - i,
{
    if i < 0 || i >= list.len() {
        None
    } else if list[i].name@ == name {
        Some(i)
    } else {
        named_from(list, name, i + 1)
    }
}

proof fn lemma_named_from(list: Seq<MoveData>, name: Seq<char>, i: int)
    ensures
        named_from(list, name, i) matches Some(j) ==> i <= j < list.len() && list[j].name@ == name,
    decreases list.len() - i,
{
    if 0 <= i < list.len() && list[i].name@ != name {
        lemma_named_from(list, name, i + 1);
    }
}

/// The check of one reference entry against the first entry here with its name.
pub open spec fn verdict(mine: Seq<MoveData>, theirs: MoveData) -> PerftCheck {
    match named_from(mine, theirs.name@, 0) {
        None => PerftCheck::Missing { name: theirs.name, count: theirs.count },
        Some(j) => if mine[j].count == theirs.count {
            PerftCheck::Agrees { name: theirs.name, count: mine[j].count }
        } else {
            PerftCheck::Differs { name: theirs.name, expected: theirs.count, found: mine[j].count }
        },
    }
}

/// The first `n` entries here that the reference does not name, as extras.
pub open spec fn extras(mine: Seq<MoveData>, theirs: Seq<MoveData>, n: int) -> Seq<PerftCheck>
    decreases n,
{
    if n <= 0 {
        Seq::empty()
    } else {
        extras(mine, theirs, n - 1) + if named_from(theirs, mine[n - 1].name@, 0) is None {
            seq![PerftCheck::Extra { name: mine[n - 1].name }]
        } else {
            Seq::empty()
        }
    }
}

/// The comparison of the counts here with a reference's: a check for each reference
/// entry in its order, then an extra for each entry here that the reference lacks.
pub open spec fn perft_comparison(mine: Seq<MoveData>, theirs: Seq<MoveData>) -> Seq<PerftCheck> {
    Seq::new(theirs.len(), |i: int| verdict(mine, theirs[i])) + extras(mine, theirs, mine.len() as int)
}

/// The index of the first entry named `name`.
fn find_named(list: &Vec<MoveData>, name: &String) -> (r: Option<usize>)
    ensures
        match r {
            Some(j) => named_from(list@, name@, 0) == Some(j as int),
            None => named_from(list@, name@, 0) is None,
        },
{
    let mut i: usize = 0;
    while i < list.len()
        invariant
            i <= list@.len(),
            named_from(list@, name@, 0) == named_from(list@, name@, i as int),
        decreases list.len() - i,
    {
        if list[i].name == *name {
            return Some(i);
        }
        i += 1;
    }
    None
}

/// Compares the counts made here with a reference engine's, as `perft_comparison` says.
pub fn compare_perft(mine: &Vec<MoveData>, theirs: &Vec<MoveData>) -> (r: Vec<PerftCheck>)
    ensures
        r@ == perft_comparison(mine@, theirs@),
{
    let mut out: Vec<PerftCheck> = Vec::new();
    let mut i: usize = 0;
    while i < theirs.len()
        invariant
            i <= theirs@.len(),
            out@ == Seq::new(i as nat, |k: int| verdict(mine@, theirs@[k])),
        decreases theirs.len() - i,
    {
        let entry = &theirs[i];
        let check = match find_named(mine, &entry.name) {
            None => PerftCheck::Missing { name: entry.name.clone(), count: entry.count },
            Some(j) => {
                proof {
                    lemma_named_from(mine@, entry.name@, 0);
                }
                let found = mine[j].count;
                if found == entry.count {
                    PerftCheck::Agrees { name: entry.name.clone(), count: found }
                } else {
                    PerftCheck::Differs { name: entry.name.clone(), expected: entry.count, found }
                }
            },
        };
        out.push(check);
        i += 1;
        assert(out@ =~= Seq::new(i as nat, |k: int| verdict(mine@, theirs@[k])));
    }
    let ghost head = out@;
    let mut k: usize = 0;
    while k < mine.len()
        invariant
            k <= mine@.len(),
            head == Seq::new(theirs@.len(), |k: int| verdict(mine@, theirs@[k])),
            out@ == head + extras(mine@, theirs@, k as int),
        decreases mine.len() - k,
    {
        let entry = &mine[k];
        if find_named(theirs, &entry.name).is_none() {
            out.push(PerftCheck::Extra { name: entry.name.clone() });
        }
        k += 1;
        assert(out@ =~= head + extras(mine@, theirs@, k as int));
    }
    out
}

} // verus!
