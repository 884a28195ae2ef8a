use vstd::prelude::*;
use crate::board_state::board::Board;
use crate::board_state::zobrist::Zobrist;
use crate::move_generation::action::{algebraic, push_algebraic, Move};
use crate::move_generation::movegen::{capped, generated};
use crate::board_state::fen::fen_board;
use crate::search::gamehistory::START_FEN;
use crate::search::timer::{allotted, Timer};
use crate::text::{string_from_chars, chars_of, parse_u64, parse_u8, split_words_by, u64_of, u8_of, words_by};

verus! {

pub const VERSION: &'static str = "2.0.0";

/// The field of a `go` command that the next value belongs to.
#[derive(Clone, Copy, PartialEq, Eq, Structural, Debug)]
pub enum GoField {
    Ponder,
    WTime,
    BTime,
    WInc,
    BInc,
    MovesToGo,
    Depth,
    Mate,
    Nodes,
    MoveTime,
    Infinite,
    Perft,
}

/// What a `go` command has set so far.
#[derive(Clone, Copy, PartialEq, Eq, Structural, Debug)]
pub struct GoState {
    pub field: GoField,
    pub wtime: u64,
    pub btime: u64,
    pub winc: u64,
    pub binc: u64,
    pub max_depth: u8,
    pub max_nodes: u64,
    pub movetime: u64,
}

/// The limits a search gets from a `go` command.
#[derive(Clone, Copy, PartialEq, Eq, Structural, Debug)]
pub struct GoLimits {
    pub is_timed: bool,
    pub time_alloted: u64,
    pub max_nodes: u64,
    pub max_depth: u8,
}

/// What a `go` command asks for: a perft count to a depth, or a search with limits.
#[derive(Clone, Copy, PartialEq, Eq, Structural, Debug)]
pub enum GoCommand {
    Perft(u8),
    Search(GoLimits),
}

/// Where reading a `go` command has got to.
pub enum GoProgress {
    Reading(GoState),
    Done(GoCommand),
    /// A depth that is not a number from 0 to 255.
    BadDepth,
}

pub open spec fn initial_go() -> GoState {
    GoState {
        field: GoField::Infinite,
        wtime: u64::MAX,
        btime: u64::MAX,
        winc: u64::MAX,
        binc: u64::MAX,
        max_depth: u8::MAX,
        max_nodes: u64::MAX,
        movetime: u64::MAX,
    }
}

/// The keyword a word is, if any.
pub open spec fn keyword(w: Seq<char>) -> Option<GoField> {
    if w == "ponder"@ {
        Some(GoField::Ponder)
    } else if w == "wtime"@ {
        Some(GoField::WTime)
    } else if w == "btime"@ {
        Some(GoField::BTime)
    } else if w == "winc"@ {
        Some(GoField::WInc)
    } else if w == "binc"@ {
        Some(GoField::BInc)
    } else if w == "movestogo"@ {
        Some(GoField::MovesToGo)
    } else if w == "depth"@ {
        Some(GoField::Depth)
    } else if w == "mate"@ {
        Some(GoField::Mate)
    } else if w == "movetime"@ {
        Some(GoField::MoveTime)
    } else if w == "infinite"@ {
        Some(GoField::Infinite)
    } else if w == "nodes"@ {
        Some(GoField::Nodes)
    } else if w == "perft"@ {
        Some(GoField::Perft)
    } else {
        None
    }
}

/// A number, 0 when the word is not one.
pub open spec fn num_or_zero(w: Seq<char>) -> u64 {
    match u64_of(w) {
        Some(n) => n,
        None => 0,
    }
}

/// One word of a `go` command: `go` is skipped, a keyword picks the field the following
/// values belong to, and a value sets its field. Times and increments take one value and
/// go back to ignoring values; depth, nodes and move time take every value that follows.
pub open spec fn go_step(st: GoState, w: Seq<char>) -> GoProgress {
    if w == "go"@ {
        GoProgress::Reading(st)
    } else {
        match keyword(w) {
            Some(f) => GoProgress::Reading(GoState { field: f, ..st }),
            None => match st.field {
                GoField::WTime => GoProgress::Reading(GoState { wtime: num_or_zero(w), field: GoField::Infinite, ..st }),
                GoField::BTime => GoProgress::Reading(GoState { btime: num_or_zero(w), field: GoField::Infinite, ..st }),
                GoField::WInc => GoProgress::Reading(GoState { winc: num_or_zero(w), field: GoField::Infinite, ..st }),
                GoField::BInc => GoProgress::Reading(GoState { binc: num_or_zero(w), field: GoField::Infinite, ..st }),
                GoField::Ponder | GoField::MovesToGo | GoField::Mate => GoProgress::Reading(
                    GoState { field: GoField::Infinite, ..st },
                ),
                GoField::Depth => match u8_of(w) {
                    Some(d) => GoProgress::Reading(GoState { max_depth: d, ..st }),
                    None => GoProgress::BadDepth,
                },
                GoField::MoveTime => GoProgress::Reading(GoState { movetime: num_or_zero(w), ..st }),
                GoField::Nodes => GoProgress::Reading(GoState { max_nodes: num_or_zero(w), ..st }),
                GoField::Infinite => GoProgress::Reading(st),
                GoField::Perft => GoProgress::Done(
                    GoCommand::Perft(
                        match u8_of(w) {
                            Some(d) => d,
                            None => 0,
                        },
                    ),
                ),
            },
        }
    }
}

/// The first `n` words read.
pub open spec fn go_read(ws: Seq<Seq<char>>, n: int) -> GoProgress
    decreases n,
{
    if n <= 0 {
        GoProgress::Reading(initial_go())
    } else {
        match go_read(ws, n - 1) {
            GoProgress::Reading(st) => go_step(st, ws[n - 1]),
            other => other,
        }
    }
}

/// The search limits for the side to move: its time allotment, capped by the move time,
/// is timed below half a million.
pub open spec fn limits_of(st: GoState, black: bool) -> GoLimits {
    let w_best = if allotted(st.wtime, st.winc) < st.movetime { allotted(st.wtime, st.winc) } else { st.movetime };
    let b_best = if allotted(st.btime, st.binc) < st.movetime { allotted(st.btime, st.binc) } else { st.movetime };
    let best = if black { b_best } else { w_best };
    GoLimits { is_timed: best < 500_000, time_alloted: best, max_nodes: st.max_nodes, max_depth: st.max_depth }
}

/// What a `go` command line asks for; `None` for a depth that is not a number.
pub open spec fn go_spec(line: Seq<char>, black: bool) -> Option<GoCommand> {
    let ws = words_by(line, true);
    match go_read(ws, ws.len() as int) {
        GoProgress::Reading(st) => Some(GoCommand::Search(limits_of(st, black))),
        GoProgress::Done(c) => Some(c),
        GoProgress::BadDepth => None,
    }
}

fn is_word(w: &Vec<char>, s: &str) -> (r: bool)
    ensures
        r == (w@ == s@),
{
    let c = chars_of(s);
    if w.len() != c.len() {
        return false;
    }
    let mut i: usize = 0;
    while i < w.len()
        invariant
            w@.len() == c@.len(),
            c@ == s@,
            i <= w@.len(),
            forall|j: int| 0 <= j < i ==> w@[j] == c@[j],
        decreases w.len() - i,
    {
        if w[i] != c[i] {
            return false;
        }
        i += 1;
    }
    assert(w@ =~= s@);
    true
}

fn keyword_of(w: &Vec<char>) -> (r: Option<GoField>)
    ensures
        r == keyword(w@),
{
    if is_word(w, "ponder") {
        Some(GoField::Ponder)
    } else if is_word(w, "wtime") {
        Some(GoField::WTime)
    } else if is_word(w, "btime") {
        Some(GoField::BTime)
    } else if is_word(w, "winc") {
        Some(GoField::WInc)
    } else if is_word(w, "binc") {
        Some(GoField::BInc)
    } else if is_word(w, "movestogo") {
        Some(GoField::MovesToGo)
    } else if is_word(w, "depth") {
        Some(GoField::Depth)
    } else if is_word(w, "mate") {
        Some(GoField::Mate)
    } else if is_word(w, "movetime") {
        Some(GoField::MoveTime)
    } else if is_word(w, "infinite") {
        Some(GoField::Infinite)
    } else if is_word(w, "nodes") {
        Some(GoField::Nodes)
    } else if is_word(w, "perft") {
        Some(GoField::Perft)
    } else {
        None
    }
}

fn number_or_zero(w: &Vec<char>) -> (r: u64)
    ensures
        r == num_or_zero(w@),
{
    match parse_u64(w) {
        Some(n) => n,
        None => 0,
    }
}

/// Reads a `go` command line (split at ASCII white space) for the side to move.
pub fn parse_go(line: &str, black: bool) -> (r: Option<GoCommand>)
    ensures
        r == go_spec(line@, black),
{
    let chars = chars_of(line);
    let ws = split_words_by(&chars, true);
    let ghost sws = words_by(line@, true);
    let mut st = GoState {
        field: GoField::Infinite,
        wtime: u64::MAX,
        btime: u64::MAX,
        winc: u64::MAX,
        binc: u64::MAX,
        max_depth: u8::MAX,
        max_nodes: u64::MAX,
        movetime: u64::MAX,
    };
    let mut i: usize = 0;
    while i < ws.len()
        invariant
            sws == words_by(line@, true),
            ws@.len() == sws.len(),
            forall|j: int| 0 <= j < ws@.len() ==> #[trigger] ws@[j]@ == sws[j],
            i <= ws@.len(),
            go_read(sws, i as int) == GoProgress::Reading(st),
        decreases ws.len() - i,
    {
        let w = &ws[i];
        if is_word(w, "go") {
            i += 1;
            continue;
        }
        match keyword_of(w) {
            Some(f) => {
                st.field = f;
            },
            None => {
                match st.field {
                    GoField::WTime => {
                        st.wtime = number_or_zero(w);
                        st.field = GoField::Infinite;
                    },
                    GoField::BTime => {
                        st.btime = number_or_zero(w);
                        st.field = GoField::Infinite;
                    },
                    GoField::WInc => {
                        st.winc = number_or_zero(w);
                        st.field = GoField::Infinite;
                    },
                    GoField::BInc => {
                        st.binc = number_or_zero(w);
                        st.field = GoField::Infinite;
                    },
                    GoField::Ponder | GoField::MovesToGo | GoField::Mate => {
                        st.field = GoField::Infinite;
                    },
                    GoField::Depth => {
                        match parse_u8(w) {
                            Some(d) => {
                                st.max_depth = d;
                            },
                            None => {
                                proof {
                                    lemma_go_stops(sws, i as int + 1, sws.len() as int);
                                }
                                return None;
                            },
                        }
                    },
                    GoField::MoveTime => {
                        st.movetime = number_or_zero(w);
                    },
                    GoField::Nodes => {
                        st.max_nodes = number_or_zero(w);
                    },
                    GoField::Infinite => {},
                    GoField::Perft => {
                        let depth = match parse_u8(w) {
                            Some(d) => d,
                            None => 0,
                        };
                        proof {
                            lemma_go_stops(sws, i as int + 1, sws.len() as int);
                        }
                        return Some(GoCommand::Perft(depth));
                    },
                }
            },
        }
        i += 1;
    }
    let w_best_time = {
        let a = Timer::allocate_time(st.wtime, st.winc);
        if a < st.movetime { a } else { st.movetime }
    };
    let b_best_time = {
        let a = Timer::allocate_time(st.btime, st.binc);
        if a < st.movetime { a } else { st.movetime }
    };
    let best = if black { b_best_time } else { w_best_time };
    Some(GoCommand::Search(GoLimits { is_timed: best < 500_000, time_alloted: best, max_nodes: st.max_nodes, max_depth: st.max_depth }))
}

/// Once reading stops, more words change nothing.
proof fn lemma_go_stops(ws: Seq<Seq<char>>, n: int, m: int)
    requires
        0 <= n <= m,
        !(go_read(ws, n) is Reading),
    ensures
        go_read(ws, m) == go_read(ws, n),
    decreases m - n,
{
    if n < m {
        lemma_go_stops(ws, n, m - 1);
    }
}

impl Board {
    /// Some move the generator yields here is named `name` and fits the board.
    pub open spec fn names_a_move(&self, name: Seq<char>) -> bool {
        let g = capped(generated(*self, true, true));
        exists|i: int| 0 <= i < g.len() && algebraic(g[i]) == name && self.fits(g[i])
    }
}

impl Board {
    /// Plays the move named `movestring` (coordinate notation) if it is among the moves
    /// generated here; `None`, changing nothing, if it is not.
    pub fn parse_move(&mut self, movestring: &Vec<char>, z: &Zobrist) -> (r: Option<()>)
        requires
            old(self).wf(),
            old(self).eval_ok(),
            old(self).has_kings(),
            z.wf(),
        ensures
            final(self).wf(),
            final(self).eval_ok(),
            r is None ==> *final(self) == *old(self),
            r is Some <==> old(self).names_a_move(movestring@),
            r is Some ==> exists|m: Move|
                algebraic(m) == movestring@ && old(self).sound_move(m) && #[trigger] final(self).played(
                    old(self),
                    m,
                ) && final(self).tomove == !old(self).tomove,
            old(self).hash_ok(z) ==> final(self).hash_ok(z),
    {
        proof {
            self.lemma_phase_bounds(6);
        }
        let moves = self.generate_moves::<true, true>(z);
        let mut i: usize = 0;
        while i < moves.length
            invariant
                *self == *old(self),
                self.wf(),
                self.eval_ok(),
                z.wf(),
                moves.wf(),
                self.all_sound(moves@),
                i <= moves.length,
                moves@ == capped(generated(*old(self), true, true)),
                forall|j: int|
                    0 <= j < i ==> !(algebraic(#[trigger] moves@[j]) == movestring@ && old(self).fits(moves@[j])),
            decreases moves.length - i,
        {
            let m = *moves.get(i);
            let mut name: Vec<char> = Vec::new();
            push_algebraic(&mut name, m);
            if same_chars(&name, movestring) && self.move_fits(m) {
                proof {
                    self.lemma_phase_bounds(6);
                    assert(name@ =~= algebraic(m));
                    assert(self.sound_move(moves@[i as int]));
                }
                let next = self.do_move(m, z);
                *self = next;
                proof {
                    assert(moves@[i as int] == m);
                }
                return Some(());
            }
            i += 1;
        }
        proof {
            let g = capped(generated(*old(self), true, true));
            assert(!old(self).names_a_move(movestring@)) by {
                if old(self).names_a_move(movestring@) {
                    let k = choose|k: int| 0 <= k < g.len() && algebraic(g[k]) == movestring@ && old(self).fits(g[k]);
                    assert(!(algebraic(moves@[k]) == movestring@ && old(self).fits(moves@[k])));
                }
            }
        }
        None
    }

    /// Plays the moves named in `line` (separated by ASCII white space) one after another,
    /// stopping with `None` at the first that is not a generated move here (the moves before
    /// it stay played) or when a king is missing.
    #[verifier::spinoff_prover]
    #[verifier::rlimit(100)]
    pub fn parse_moves(&mut self, line: &str, z: &Zobrist) -> (r: Option<()>)
        requires
            old(self).wf(),
            old(self).eval_ok(),
            z.wf(),
        ensures
            final(self).wf(),
            final(self).eval_ok(),
            old(self).hash_ok(z) ==> final(self).hash_ok(z),
            match r {
                Some(()) => reached(z, *old(self), move_steps(line@), words_by(line@, true).len() as int, *final(self)),
                None => exists|n: int|
                    0 <= n < words_by(line@, true).len() && #[trigger] reached(z, *old(self), move_steps(line@), n, *final(self)),
            },
    {
        let chars = chars_of(line);
        let actions = split_words_by(&chars, true);
        let ghost ms = move_steps(line@);
        let ghost b0 = *self;
        let ghost mut tr: Seq<Board> = seq![b0];
        let mut i: usize = 0;
        while i < actions.len()
            invariant
                self.wf(),
                self.eval_ok(),
                z.wf(),
                old(self).hash_ok(z) ==> self.hash_ok(z),
                b0 == *old(self),
                ms == move_steps(line@),
                actions@.len() == words_by(line@, true).len(),
                forall|j: int| 0 <= j < actions@.len() ==> #[trigger] actions@[j]@ == words_by(line@, true)[j],
                i <= actions@.len(),
                trace_ok(z, b0, ms, i as int, tr),
                tr[i as int] == *self,
            decreases actions.len() - i,
        {
            let ghost bp = *self;
            if !self.kings_present() {
                assert(reached(z, b0, ms, i as int, *self));
                return None;
            }
            match self.parse_move(&actions[i], z) {
                Some(()) => {},
                None => {
                    assert(reached(z, b0, ms, i as int, *self));
                    return None;
                },
            }
            proof {
                assert(ms[i as int] == (false, false, actions@[i as int]@));
                assert(step_ok(z, bp, ms[i as int], *self));
                let tr2 = tr.push(*self);
                assert forall|k: int| #![trigger tr2[k]] 0 <= k < i + 1 implies step_ok(z, tr2[k], ms[k], tr2[k + 1]) by {
                    if k < i {
                        assert(tr2[k] == tr[k] && tr2[k + 1] == tr[k + 1]);
                    }
                }
                tr = tr2;
            }
            i += 1;
        }
        assert(reached(z, b0, ms, i as int, *self));
        Some(())
    }
}

/// The words of a line as move steps.
pub open spec fn move_steps(line: Seq<char>) -> Seq<(bool, bool, Seq<char>)> {
    let ws = words_by(line, true);
    Seq::new(ws.len(), |i: int| (false, false, ws[i]))
}

/// Whether two character lists are equal.
fn same_chars(a: &Vec<char>, b: &Vec<char>) -> (r: bool)
    ensures
        r == (a@ == b@),
{
    if a.len() != b.len() {
        return false;
    }
    let mut i: usize = 0;
    while i < a.len()
        invariant
            a@.len() == b@.len(),
            i <= a@.len(),
            forall|j: int| 0 <= j < i ==> a@[j] == b@[j],
        decreases a.len() - i,
    {
        if a[i] != b[i] {
            return false;
        }
        i += 1;
    }
    assert(a@ =~= b@);
    true
}

/// A step of a `position` command: set up the position a FEN text gives (`strict`: the
/// command cannot go on without it), or play a move named in coordinate notation.
pub enum PositionStep {
    Fen { text: Vec<char>, strict: bool },
    Play(Vec<char>),
}

/// A step as plain values: whether it is a FEN step, whether it is strict, and its text.
pub open spec fn step_view(s: PositionStep) -> (bool, bool, Seq<char>) {
    match s {
        PositionStep::Fen { text, strict } => (true, strict, text@),
        PositionStep::Play(w) => (false, false, w@),
    }
}

/// Where reading a `position` command has got to: the FEN text gathered, what the next
/// word is (0: nothing, 1: FEN text, 2: a move), whether `moves` came, the steps so far,
/// and whether reading stopped.
pub type PositionRead = (Seq<char>, int, bool, Seq<(bool, bool, Seq<char>)>, bool);

/// Reads one word of a `position` command.
pub open spec fn position_step(st: PositionRead, w: Seq<char>) -> PositionRead {
    let (fen, mode, has_moves, steps, done) = st;
    if done {
        st
    } else if w == "startpos"@ {
        (fen + START_FEN@, mode, has_moves, steps, done)
    } else if w == "fen"@ {
        (fen, 1, has_moves, steps, done)
    } else if w == "moves"@ {
        (fen, 2, true, steps.push((true, true, fen)), done)
    } else if mode == 1 {
        (if fen.len() == 0 { w } else { fen + seq![' '] + w }, mode, has_moves, steps, done)
    } else if mode == 2 {
        (fen, mode, has_moves, steps.push((false, false, w)), done)
    } else {
        (fen, mode, has_moves, steps, true)
    }
}

/// The first `n` words read.
pub open spec fn position_read(ws: Seq<Seq<char>>, n: int) -> PositionRead
    decreases n,
{
    if n <= 0 {
        (Seq::empty(), 0, false, Seq::empty(), false)
    } else {
        position_step(position_read(ws, n - 1), ws[n - 1])
    }
}

/// The steps a `position` command line asks for (its words after the first, split at
/// ASCII white space): a FEN step at each `moves`, a move step for each word after it,
/// and, when no `moves` came and reading did not stop at a stray word, a last FEN step
/// that may fail. The FEN text is `startpos`'s position or the words after `fen`, joined
/// by single spaces, as the FEN reader takes its fields.
pub open spec fn position_steps(line: Seq<char>) -> Seq<(bool, bool, Seq<char>)> {
    let ws = words_by(line, true);
    let args = if ws.len() > 0 { ws.drop_first() } else { ws };
    let (fen, mode, has_moves, steps, done) = position_read(args, args.len() as int);
    if !done && !has_moves {
        steps.push((true, false, fen))
    } else {
        steps
    }
}

/// Reads the steps of a `position` command line, as `position_steps` says.
pub fn read_position(line: &str) -> (r: Vec<PositionStep>)
    ensures
        r@.len() == position_steps(line@).len(),
        forall|i: int| 0 <= i < r@.len() ==> #[trigger] step_view(r@[i]) == position_steps(line@)[i],
{
    let chars = chars_of(line);
    let ws = split_words_by(&chars, true);
    let ghost sws = words_by(line@, true);
    let ghost args = if sws.len() > 0 { sws.drop_first() } else { sws };
    let mut fen: Vec<char> = Vec::new();
    let mut mode: u8 = 0;
    let mut has_moves = false;
    let mut steps: Vec<PositionStep> = Vec::new();
    let mut done = false;
    let mut i: usize = 1;
    while i < ws.len()
        invariant
            sws == words_by(line@, true),
            args == (if sws.len() > 0 { sws.drop_first() } else { sws }),
            ws@.len() == sws.len(),
            forall|j: int| 0 <= j < ws@.len() ==> #[trigger] ws@[j]@ == sws[j],
            1 <= i,
            i <= ws@.len() || ws@.len() == 0,
            ({
                let st = position_read(args, if ws@.len() == 0 { 0 } else { i - 1 });
                &&& st.0 == fen@
                &&& st.1 == mode as int
                &&& st.2 == has_moves
                &&& st.4 == done
                &&& st.3.len() == steps@.len()
                &&& forall|j: int| 0 <= j < steps@.len() ==> #[trigger] step_view(steps@[j]) == st.3[j]
            }),
            mode <= 2,
        decreases ws.len() - i,
    {
        let w = &ws[i];
        let ghost before = steps@;
        proof {
            assert(args[i - 1] == sws[i as int]);
        }
        if done {
        } else if is_word(w, "startpos") {
            let start = chars_of(START_FEN);
            let mut k: usize = 0;
            let ghost fen0 = fen@;
            while k < start.len()
                invariant
                    k <= start@.len(),
                    fen@ == fen0 + start@.take(k as int),
                decreases start.len() - k,
            {
                fen.push(start[k]);
                k += 1;
                assert(fen@ =~= fen0 + start@.take(k as int));
            }
            assert(start@.take(start@.len() as int) =~= start@);
        } else if is_word(w, "fen") {
            mode = 1;
        } else if is_word(w, "moves") {
            has_moves = true;
            steps.push(PositionStep::Fen { text: fen.clone(), strict: true });
            mode = 2;
        } else if mode == 1 {
            let ghost fen0 = fen@;
            if fen.len() > 0 {
                fen.push(' ');
            }
            let ghost fen1 = fen@;
            let mut k: usize = 0;
            while k < w.len()
                invariant
                    k <= w@.len(),
                    fen@ == fen1 + w@.take(k as int),
                decreases w.len() - k,
            {
                fen.push(w[k]);
                k += 1;
                assert(fen@ =~= fen1 + w@.take(k as int));
            }
            assert(w@.take(w@.len() as int) =~= w@);
            assert(fen@ =~= if fen0.len() == 0 { w@ } else { fen0 + seq![' '] + w@ });
        } else if mode == 2 {
            steps.push(PositionStep::Play(w.clone()));
        } else {
            done = true;
        }
        proof {
            let st = position_read(args, i - 1);
            let st2 = position_read(args, i as int);
            assert(st2 == position_step(st, args[i - 1]));
            assert forall|j: int| 0 <= j < steps@.len() implies #[trigger] step_view(steps@[j]) == st2.3[j] by {
                if j < before.len() {
                    assert(steps@[j] == before[j]);
                }
            }
        }
        i += 1;
    }
    if !done && !has_moves {
        steps.push(PositionStep::Fen { text: fen, strict: false });
    }
    proof {
        let n = args.len() as int;
        assert(position_read(args, n) == position_read(args, if ws@.len() == 0 { 0 } else { i - 1 }));
    }
    steps
}

/// The plain values of a list of steps.
pub open spec fn step_views(steps: Seq<PositionStep>) -> Seq<(bool, bool, Seq<char>)> {
    Seq::new(steps.len(), |i: int| step_view(steps[i]))
}

/// `b2` is `b` after a move named `name` that can be played on `b`.
pub open spec fn plays(b: Board, name: Seq<char>, b2: Board) -> bool {
    exists|m: Move|
        algebraic(m) == name && b.sound_move(m) && #[trigger] b2.played(&b, m) && b2.tomove == !b.tomove
}

/// `b` follows from `bp` by a step: a FEN step sets up its position, a move step plays
/// its move.
pub open spec fn step_ok(z: &Zobrist, bp: Board, step: (bool, bool, Seq<char>), b: Board) -> bool {
    if step.0 {
        fen_board(step.2, z) == Ok::<Board, u8>(b)
    } else {
        plays(bp, step.2, b)
    }
}

/// `tr` lists the boards the first `n` steps go through from `b0`.
pub open spec fn trace_ok(z: &Zobrist, b0: Board, steps: Seq<(bool, bool, Seq<char>)>, n: int, tr: Seq<Board>) -> bool {
    &&& tr.len() == n + 1
    &&& tr[0] == b0
    &&& forall|k: int| #![trigger tr[k]] 0 <= k < n ==> step_ok(z, tr[k], steps[k], tr[k + 1])
}

/// `b` is where the first `n` steps lead from `b0`.
pub open spec fn reached(z: &Zobrist, b0: Board, steps: Seq<(bool, bool, Seq<char>)>, n: int, b: Board) -> bool {
    exists|tr: Seq<Board>| #[trigger] trace_ok(z, b0, steps, n, tr) && tr[n] == b
}

/// Why a `position` command stopped early.
#[derive(Clone, Copy, PartialEq, Eq, Structural, Debug)]
pub enum PositionError {
    /// A FEN text that does not read, with its error code; `strict` when moves were to follow.
    Fen { code: u8, strict: bool },
    /// A move that is not generated in its position (or a king is missing).
    BadMove,
}

/// What playing the steps ends with: `Ok` when all were taken; otherwise the error of the
/// first that could not be, with the board as the steps before it left it.
pub open spec fn position_outcome(
    z: &Zobrist,
    b0: Board,
    steps: Seq<(bool, bool, Seq<char>)>,
    r: Result<(), PositionError>,
    b: Board,
) -> bool {
    match r {
        Ok(()) => reached(z, b0, steps, steps.len() as int, b),
        Err(PositionError::BadMove) => exists|n: int|
            0 <= n < steps.len() && !steps[n].0 && !(b.has_kings() && b.names_a_move(steps[n].2))
                && #[trigger] reached(z, b0, steps, n, b),
        Err(PositionError::Fen { code, strict }) => exists|n: int|
            0 <= n < steps.len() && steps[n].0 && steps[n].1 == strict && fen_board(steps[n].2, z)
                == Err::<Board, u8>(code) && #[trigger] reached(z, b0, steps, n, b),
    }
}

/// Takes the steps in order, stopping at the first that cannot be taken.
#[verifier::spinoff_prover]
#[verifier::rlimit(100)]
pub fn play_position(board: &mut Board, steps: &Vec<PositionStep>, z: &Zobrist) -> (r: Result<(), PositionError>)
    requires
        old(board).wf(),
        old(board).eval_ok(),
        z.wf(),
    ensures
        final(board).wf(),
        final(board).eval_ok(),
        position_outcome(z, *old(board), step_views(steps@), r, *final(board)),
{
    let ghost sv = step_views(steps@);
    let ghost b0 = *board;
    let ghost mut tr: Seq<Board> = seq![b0];
    let mut i: usize = 0;
    while i < steps.len()
        invariant
            z.wf(),
            board.wf(),
            board.eval_ok(),
            sv == step_views(steps@),
            i <= steps@.len(),
            b0 == *old(board),
            trace_ok(z, b0, sv, i as int, tr),
            tr[i as int] == *board,
        decreases steps.len() - i,
    {
        let ghost bp = *board;
        assert(sv[i as int] == step_view(steps@[i as int]));
        match &steps[i] {
            PositionStep::Fen { text, strict } => {
                let t = string_from_chars(text);
                let ts = t.as_str();
                match Board::parse_fen(ts, z) {
                    Ok(b) => {
                        *board = b;
                    },
                    Err(code) => {
                        assert(sv[i as int].0 && sv[i as int].1 == *strict && sv[i as int].2 == text@);
                        assert(reached(z, b0, sv, i as int, *board));
                        assert(ts@ == text@);
                        return Err(PositionError::Fen { code, strict: *strict });
                    },
                }
            },
            PositionStep::Play(w) => {
                if !board.kings_present() {
                    assert(!sv[i as int].0 && sv[i as int].2 == w@);
                    assert(reached(z, b0, sv, i as int, *board));
                    return Err(PositionError::BadMove);
                }
                match board.parse_move(w, z) {
                    Some(()) => {},
                    None => {
                        assert(!sv[i as int].0 && sv[i as int].2 == w@);
                        assert(reached(z, b0, sv, i as int, *board));
                        return Err(PositionError::BadMove);
                    },
                }
            },
        }
        proof {
            assert(step_ok(z, bp, sv[i as int], *board));
            let tr2 = tr.push(*board);
            assert forall|k: int| #![trigger tr2[k]] 0 <= k < i + 1 implies step_ok(z, tr2[k], sv[k], tr2[k + 1]) by {
                if k < i {
                    assert(tr2[k] == tr[k] && tr2[k + 1] == tr[k + 1]);
                }
            }
            tr = tr2;
        }
        i += 1;
    }
    assert(reached(z, b0, sv, i as int, *board));
    Ok(())
}

/// Sets up the position a `position` command line asks for, as `read_position` reads it
/// and `play_position` plays it.
pub fn parse_position(board: &mut Board, line: &str, z: &Zobrist) -> (r: Result<(), PositionError>)
    requires
        old(board).wf(),
        old(board).eval_ok(),
        z.wf(),
    ensures
        final(board).wf(),
        final(board).eval_ok(),
        position_outcome(z, *old(board), position_steps(line@), r, *final(board)),
{
    let steps = read_position(line);
    assert(step_views(steps@) =~= position_steps(line@));
    play_position(board, &steps, z)
}

} // verus!
