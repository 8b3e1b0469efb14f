use crate::board::{swap_seq, Board, Dir, Grid};
use crate::random::random_below;
use crate::score::{full_mark, full_mark_of, score, score_spec};
use vstd::prelude::*;

verus! {

/// A seed that scores below this many tenths of the full mark is not worth
/// refining: the pipeline gives it back at once.
pub const SEED_TENTHS: u128 = 9;

/// A proposed exchange of two tiles, with the score of the board it gives.
#[derive(Clone, Copy, PartialEq, Eq, Structural, Debug)]
pub struct Exchange {
    pub a: usize,
    pub b: usize,
    pub new_score: u128,
}

/// Annealing over direct permutations of the tiles, looking for a
/// high-scoring pattern with no regard to which moves could reach it. The
/// empty slot is kept in the last cell throughout.
pub struct PermutationSearch {
    pub board: Board,
    pub score: u128,
    pub best: Board,
    pub best_score: u128,
    pub max_moves: usize,
}

/// The grid with cells `a` and `b` exchanged.
pub open spec fn exchanged(g: Grid, a: int, b: int) -> Grid {
    Grid { n: g.n, cells: swap_seq(g.cells, a, b), empty: g.empty }
}

impl PermutationSearch {
    pub open spec fn inv(&self) -> bool {
        &&& self.board.wf()
        &&& self.best.wf()
        &&& self.board.cells@.len() >= 3
        &&& self.best.size == self.board.size
        &&& self.board.empty == self.board.cells@.len() - 1
        &&& self.best.empty == self.best.cells@.len() - 1
        &&& self.score == score_spec(self.board@, 0, self.max_moves as int)
        &&& self.best_score == score_spec(self.best@, 0, self.max_moves as int)
        &&& self.best_score >= self.score
    }

    /// Starts from `init` with its empty slot exchanged into the last cell.
    pub fn new(init: &Board, max_moves: usize) -> (r: PermutationSearch)
        requires
            init.wf(),
            init.cells@.len() >= 3,
        ensures
            r.inv(),
            r.max_moves == max_moves,
            r.board.cells@ == swap_seq(init.cells@, init.empty as int, init.cells@.len() - 1),
            r.board.size == init.size,
            r.best@ == r.board@,
    {
        let mut board = init.duplicate();
        let last = board.cells.len() - 1;
        let e = board.empty;
        board.swap(e, last);
        board.empty = last;
        proof {
            let c = board.cells@;
            assert forall|i: int| 0 <= i < c.len() && c[i] == 0 implies i == last by {
                if i != last && i != e {
                    assert(c[i] == init.cells@[i]);
                }
            }
        }
        let s = score(&board, 0, max_moves);
        let best = board.duplicate();
        PermutationSearch { board, score: s, best, best_score: s, max_moves }
    }

    /// The best board reaches the full mark: a tree over every tile.
    pub fn is_perfect(&self) -> (r: bool)
        ensures
            r == (self.best_score >= full_mark(self.max_moves as int)),
    {
        self.best_score >= full_mark_of(self.max_moves)
    }

    /// Draws two distinct tiles (never the empty slot) and scores the board
    /// with them exchanged; the board itself is left as it is.
    pub fn propose(&self, rng: &mut rand_pcg::Mcg128Xsl64) -> (p: Exchange)
        requires
            self.inv(),
        ensures
            p.a < p.b < self.board.cells@.len() - 1,
            p.new_score == score_spec(exchanged(self.board@, p.a as int, p.b as int), 0, self.max_moves as int),
    {
        let nn = self.board.cells.len();
        let a = random_below(rng, nn - 2);
        let b = a + 1 + random_below(rng, nn - 2 - a);
        let mut trial = self.board.duplicate();
        trial.swap(a, b);
        proof {
            lemma_exchange_wf(self.board@, a as int, b as int);
        }
        let new_score = score(&trial, 0, self.max_moves);
        Exchange { a, b, new_score }
    }

    /// Keeps the exchange when `accept` holds, and records the exchanged
    /// board as the best when it beats the best so far.
    pub fn decide(&mut self, p: Exchange, accept: bool)
        requires
            old(self).inv(),
            p.a < p.b < old(self).board.cells@.len() - 1,
            p.new_score == score_spec(exchanged(old(self).board@, p.a as int, p.b as int), 0, old(self).max_moves as int),
        ensures
            final(self).inv(),
            final(self).max_moves == old(self).max_moves,
            accept ==> final(self).board@ == exchanged(old(self).board@, p.a as int, p.b as int)
                && final(self).score == p.new_score,
            !accept ==> final(self).board@ == old(self).board@ && final(self).score == old(self).score,
            p.new_score > old(self).best_score ==> final(self).best@ == exchanged(old(self).board@, p.a as int, p.b as int)
                && final(self).best_score == p.new_score,
            p.new_score <= old(self).best_score ==> final(self).best@ == old(self).best@
                && final(self).best_score == old(self).best_score,
    {
        proof {
            lemma_exchange_wf(self.board@, p.a as int, p.b as int);
        }
        if p.new_score > self.best_score {
            let mut trial = self.board.duplicate();
            trial.swap(p.a, p.b);
            self.best = trial;
            self.best_score = p.new_score;
        }
        if accept {
            self.board.swap(p.a, p.b);
            self.score = p.new_score;
        }
    }
}

/// Exchanging two tiles away from the empty slot keeps the board well formed.
pub proof fn lemma_exchange_wf(g: Grid, a: int, b: int)
    requires
        g.wf(),
        g.empty == g.cells.len() - 1,
        0 <= a < b < g.cells.len() - 1,
    ensures
        exchanged(g, a, b).wf(),
{
    let h = exchanged(g, a, b);
    assert forall|i: int| 0 <= i < h.cells.len() && h.cells[i] == 0 implies i == h.empty by {
        if i == a {
            assert(h.cells[i] == g.cells[b]);
        } else if i == b {
            assert(h.cells[i] == g.cells[a]);
        } else {
            assert(h.cells[i] == g.cells[i]);
        }
    }
}

/// One change to a sequence of moves.
#[derive(Clone, Copy, PartialEq, Eq, Structural, Debug)]
pub enum Mutation {
    /// Exchange the moves at two places.
    Swap(usize, usize),
    /// Put a move in place of the one at a place.
    Replace(usize, Dir),
    /// Take out the move at a place.
    Remove(usize),
    /// Put a move in before a place.
    Insert(usize, Dir),
    /// Add a move at the end.
    Push(Dir),
    /// Take out the last move, if any.
    Pop,
    /// Leave the sequence as it is.
    Keep,
}

/// The sequence after the change, or `None` when a place lies outside it.
pub open spec fn mutated(s: Seq<Dir>, m: Mutation) -> Option<Seq<Dir>> {
    match m {
        Mutation::Swap(i, j) => if i < s.len() && j < s.len() {
            Some(s.update(i as int, s[j as int]).update(j as int, s[i as int]))
        } else {
            None
        },
        Mutation::Replace(i, d) => if i < s.len() {
            Some(s.update(i as int, d))
        } else {
            None
        },
        Mutation::Remove(i) => if i < s.len() {
            Some(s.remove(i as int))
        } else {
            None
        },
        Mutation::Insert(i, d) => if i <= s.len() {
            Some(s.insert(i as int, d))
        } else {
            None
        },
        Mutation::Push(d) => Some(s.push(d)),
        Mutation::Pop => if s.len() == 0 {
            Some(s)
        } else {
            Some(s.drop_last())
        },
        Mutation::Keep => Some(s),
    }
}

/// Copy of a sequence of moves.
pub fn copy_moves(v: &Vec<Dir>) -> (r: Vec<Dir>)
    ensures
        r@ == v@,
{
    let mut r: Vec<Dir> = Vec::new();
    let mut i: usize = 0;
    while i < v.len()
        invariant
            i <= v@.len(),
            r@ == v@.take(i as int),
        decreases v.len() - i,
    {
        r.push(v[i]);
        i += 1;
        proof {
            assert(r@ =~= v@.take(i as int));
        }
    }
    proof {
        assert(v@.take(i as int) =~= v@);
    }
    r
}

/// Applies a change to a sequence of moves.
pub fn mutate(moves: &Vec<Dir>, m: Mutation) -> (r: Option<Vec<Dir>>)
    ensures
        r is None <==> mutated(moves@, m) is None,
        r matches Some(v) ==> Some(v@) == mutated(moves@, m),
{
    let mut v = copy_moves(moves);
    let len = v.len();
    match m {
        Mutation::Swap(i, j) => {
            if i < len && j < len {
                let x = v[i];
                let y = v[j];
                v.set(i, y);
                v.set(j, x);
                Some(v)
            } else {
                None
            }
        },
        Mutation::Replace(i, d) => {
            if i < len {
                v.set(i, d);
                Some(v)
            } else {
                None
            }
        },
        Mutation::Remove(i) => {
            if i < len {
                v.remove(i);
                Some(v)
            } else {
                None
            }
        },
        Mutation::Insert(i, d) => {
            if i <= len {
                v.insert(i, d);
                Some(v)
            } else {
                None
            }
        },
        Mutation::Push(d) => {
            v.push(d);
            Some(v)
        },
        Mutation::Pop => {
            v.pop();
            Some(v)
        },
        Mutation::Keep => Some(v),
    }
}

/// Whether change number `selection` (0 swap, 1 replace, 2 remove,
/// 3 insert, 4 push, 5 pop) may be made to a sequence of `len` moves under a
/// budget of `max_moves`: swaps and removals only on sequences at least half
/// the budget long, swaps on two moves or more, replacements and removals on
/// non-empty ones, insertions into non-empty ones, and nothing that grows a
/// sequence past the budget.
pub open spec fn allowed(selection: int, len: int, max_moves: int) -> bool {
    if selection == 0 {
        len >= max_moves / 2 && len >= 2
    } else if selection == 1 {
        len >= 1
    } else if selection == 2 {
        len >= max_moves / 2 && len >= 1
    } else if selection == 3 {
        1 <= len < max_moves
    } else if selection == 4 {
        len < max_moves
    } else {
        selection == 5
    }
}

/// A change that may be made to a sequence of `len` moves, with its places
/// inside the sequence.
pub open spec fn fits(m: Mutation, len: int, max_moves: int) -> bool {
    match m {
        Mutation::Swap(i, j) => allowed(0, len, max_moves) && i < j < len,
        Mutation::Replace(i, _) => allowed(1, len, max_moves) && i < len,
        Mutation::Remove(i) => allowed(2, len, max_moves) && i < len,
        Mutation::Insert(i, _) => allowed(3, len, max_moves) && i < len,
        Mutation::Push(_) => allowed(4, len, max_moves),
        Mutation::Pop => true,
        Mutation::Keep => false,
    }
}

pub fn mutation_allowed(selection: usize, len: usize, max_moves: usize) -> (r: bool)
    ensures
        r == allowed(selection as int, len as int, max_moves as int),
{
    if selection == 0 {
        len >= max_moves / 2 && len >= 2
    } else if selection == 1 {
        len >= 1
    } else if selection == 2 {
        len >= max_moves / 2 && len >= 1
    } else if selection == 3 {
        1 <= len && len < max_moves
    } else if selection == 4 {
        len < max_moves
    } else {
        selection == 5
    }
}

/// The change numbered `selection` built from drawn places `i`, `j` and move
/// `d` (each change uses what it needs).
pub fn mutation_for(selection: usize, i: usize, j: usize, d: Dir) -> (m: Mutation)
    requires
        selection < 6,
    ensures
        m == (if selection == 0 {
            Mutation::Swap(i, j)
        } else if selection == 1 {
            Mutation::Replace(i, d)
        } else if selection == 2 {
            Mutation::Remove(i)
        } else if selection == 3 {
            Mutation::Insert(i, d)
        } else if selection == 4 {
            Mutation::Push(d)
        } else {
            Mutation::Pop
        }),
{
    if selection == 0 {
        Mutation::Swap(i, j)
    } else if selection == 1 {
        Mutation::Replace(i, d)
    } else if selection == 2 {
        Mutation::Remove(i)
    } else if selection == 3 {
        Mutation::Insert(i, d)
    } else if selection == 4 {
        Mutation::Push(d)
    } else {
        Mutation::Pop
    }
}

/// Draws one of six changes with equal chance, and the places and move it
/// needs; a draw that falls on a change not allowed for this length gives
/// `None`, which happens only for sequences shorter than half the budget,
/// shorter than two moves, or as long as the budget.
pub fn draw_mutation(rng: &mut rand_pcg::Mcg128Xsl64, len: usize, max_moves: usize) -> (r: Option<Mutation>)
    ensures
        r matches Some(m) ==> fits(m, len as int, max_moves as int),
        r is None ==> len < max_moves / 2 || len < 2 || len >= max_moves,
{
    let selection = random_below(rng, 6);
    if !mutation_allowed(selection, len, max_moves) {
        return None;
    }
    let i = if selection == 0 {
        random_below(rng, len - 1)
    } else if selection <= 3 {
        random_below(rng, len)
    } else {
        0
    };
    let j = if selection == 0 {
        i + 1 + random_below(rng, len - i - 1)
    } else {
        0
    };
    let d = Dir::from_index(random_below(rng, 4));
    Some(mutation_for(selection, i, j, d))
}

/// A change that fits a sequence can be made to it, and the result stays
/// within the budget when the sequence did.
pub proof fn lemma_fits_mutated(s: Seq<Dir>, m: Mutation, max_moves: int)
    requires
        fits(m, s.len() as int, max_moves),
    ensures
        mutated(s, m) matches Some(t) && (s.len() <= max_moves ==> t.len() <= max_moves),
{
}

/// Moves within the budget that replay legally from `init`.
pub open spec fn legal(init: Grid, moves: Seq<Dir>, max_moves: int) -> bool {
    moves.len() <= max_moves && init.replay(moves) is Some
}

/// Change `m` to `s` gives a sequence that is not legal from `init`.
pub open spec fn illegal_change(init: Grid, s: Seq<Dir>, m: Mutation, max_moves: int) -> bool {
    match mutated(s, m) {
        Some(t) => !legal(init, t, max_moves),
        None => false,
    }
}

/// Score of the board that `moves` lead to from `init`.
pub open spec fn run_score(init: Grid, moves: Seq<Dir>, max_moves: int) -> int {
    score_spec(init.replay(moves).unwrap(), moves.len() as int, max_moves)
}

/// Annealing over sequences of moves, each replayed from the true initial
/// board; a sequence with an illegal move is never kept.
pub struct SequenceSearch {
    pub init: Board,
    pub max_moves: usize,
    pub current: Vec<Dir>,
    pub score: u128,
    pub best: Vec<Dir>,
    pub best_score: u128,
}

impl SequenceSearch {
    pub open spec fn inv(&self) -> bool {
        &&& self.init.wf()
        &&& legal(self.init@, self.current@, self.max_moves as int)
        &&& legal(self.init@, self.best@, self.max_moves as int)
        &&& self.score == run_score(self.init@, self.current@, self.max_moves as int)
        &&& self.best_score == run_score(self.init@, self.best@, self.max_moves as int)
    }

    /// Starts from `seed`, which must replay legally within the budget.
    pub fn new(init: &Board, max_moves: usize, seed: &Vec<Dir>) -> (r: Option<SequenceSearch>)
        requires
            init.wf(),
        ensures
            r is Some <==> legal(init@, seed@, max_moves as int),
            r matches Some(s) ==> s.inv() && s.current@ == seed@ && s.best@ == seed@ && s.init@
                == init@ && s.max_moves == max_moves,
    {
        let init_copy = init.duplicate();
        match evaluate(init, max_moves, seed) {
            Some(s) => Some(
                SequenceSearch {
                    init: init_copy,
                    max_moves,
                    current: copy_moves(seed),
                    score: s,
                    best: copy_moves(seed),
                    best_score: s,
                },
            ),
            None => None,
        }
    }

    /// Whether the seed scored well enough to be worth refining.
    pub fn seed_worth_refining(&self) -> (r: bool)
        requires
            self.inv(),
        ensures
            r == (10 * self.score >= SEED_TENTHS * full_mark(self.max_moves as int)),
    {
        proof {
            crate::board::lemma_replay_wf(self.init@, self.current@);
            crate::score::lemma_score_bounds(
                self.init@.replay(self.current@).unwrap(),
                self.current@.len() as int,
                self.max_moves as int,
            );
            assert(self.max_moves <= 0xffff_ffff_ffff_ffffu128);
        }
        let mark = full_mark_of(self.max_moves);
        10 * self.score >= SEED_TENTHS * mark
    }

    /// A candidate one random change away from the current sequence, with
    /// its score; `None` when the drawn change is refused or the candidate is
    /// illegal.
    pub fn propose(&self, rng: &mut rand_pcg::Mcg128Xsl64) -> (r: Option<(Vec<Dir>, u128)>)
        requires
            self.inv(),
        ensures
            r matches Some(c) ==> legal(self.init@, c.0@, self.max_moves as int) && c.1 == run_score(
                self.init@,
                c.0@,
                self.max_moves as int,
            ),
            r matches Some(c) ==> exists|m: Mutation|
                fits(m, self.current@.len() as int, self.max_moves as int) && mutated(self.current@, m)
                    == Some(c.0@),
            r is None ==> {
                let len = self.current@.len() as int;
                let mm = self.max_moves as int;
                ||| len < mm / 2 || len < 2 || len >= mm
                ||| exists|m: Mutation|
                    fits(m, len, mm) && #[trigger] illegal_change(self.init@, self.current@, m, mm)
            },
    {
        let m = match draw_mutation(rng, self.current.len(), self.max_moves) {
            Some(m) => m,
            None => {
                return None;
            },
        };
        proof {
            lemma_fits_mutated(self.current@, m, self.max_moves as int);
        }
        let cand = match mutate(&self.current, m) {
            Some(c) => c,
            None => {
                return None;
            },
        };
        match evaluate(&self.init, self.max_moves, &cand) {
            Some(s) => Some((cand, s)),
            None => {
                proof {
                    assert(illegal_change(self.init@, self.current@, m, self.max_moves as int));
                }
                None
            },
        }
    }

    /// Makes the candidate current when `accept` holds, and keeps it as the
    /// best when it beats the best so far.
    pub fn commit(&mut self, cand: Vec<Dir>, cand_score: u128, accept: bool)
        requires
            old(self).inv(),
            legal(old(self).init@, cand@, old(self).max_moves as int),
            cand_score == run_score(old(self).init@, cand@, old(self).max_moves as int),
        ensures
            final(self).inv(),
            final(self).init@ == old(self).init@,
            final(self).max_moves == old(self).max_moves,
            accept ==> final(self).current@ == cand@ && final(self).score == cand_score,
            !accept ==> final(self).current@ == old(self).current@ && final(self).score == old(self).score,
            cand_score > old(self).best_score ==> final(self).best@ == cand@ && final(self).best_score == cand_score,
            cand_score <= old(self).best_score ==> final(self).best@ == old(self).best@
                && final(self).best_score == old(self).best_score,
    {
        if accept {
            self.current = copy_moves(&cand);
            self.score = cand_score;
        }
        if cand_score > self.best_score {
            self.best = cand;
            self.best_score = cand_score;
        }
    }
}

/// The score of the board that `moves` lead to from `init`, or `None` when the
/// moves exceed the budget or one of them is illegal.
pub fn evaluate(init: &Board, max_moves: usize, moves: &Vec<Dir>) -> (r: Option<u128>)
    requires
        init.wf(),
    ensures
        r is Some <==> legal(init@, moves@, max_moves as int),
        r matches Some(s) ==> s == run_score(init@, moves@, max_moves as int),
{
    if moves.len() > max_moves {
        return None;
    }
    let mut board = init.duplicate();
    if !board.apply_moves(moves) {
        return None;
    }
    Some(score(&board, moves.len(), max_moves))
}

} // verus!
