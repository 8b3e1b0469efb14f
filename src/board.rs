use vstd::arithmetic::div_mod::{
    lemma_fundamental_div_mod, lemma_fundamental_div_mod_converse_mod, lemma_mod_pos_bound,
};
use vstd::prelude::*;

verus! {

/// One of the four directions in which the empty slot can travel.
#[derive(Clone, Copy, PartialEq, Eq, Structural, Debug)]
pub enum Dir {
    Left,
    Up,
    Right,
    Down,
}

/// The four directions, in the order of their connector bits.
pub open spec fn dir_of(i: int) -> Dir {
    if i == 0 {
        Dir::Left
    } else if i == 1 {
        Dir::Up
    } else if i == 2 {
        Dir::Right
    } else {
        Dir::Down
    }
}

impl Dir {
    /// Position of this direction's connector bit (Left 0, Up 1, Right 2, Down 3).
    pub open spec fn bit(self) -> nat {
        match self {
            Dir::Left => 0,
            Dir::Up => 1,
            Dir::Right => 2,
            Dir::Down => 3,
        }
    }

    pub open spec fn opp(self) -> Dir {
        match self {
            Dir::Left => Dir::Right,
            Dir::Up => Dir::Down,
            Dir::Right => Dir::Left,
            Dir::Down => Dir::Up,
        }
    }

    pub fn index(self) -> (r: usize)
        ensures
            r as nat == self.bit(),
            dir_of(r as int) == self,
    {
        match self {
            Dir::Left => 0,
            Dir::Up => 1,
            Dir::Right => 2,
            Dir::Down => 3,
        }
    }

    /// The direction whose connector bit is `i`.
    pub fn from_index(i: usize) -> (r: Dir)
        requires
            i < 4,
        ensures
            r == dir_of(i as int),
            r.bit() == i,
    {
        if i == 0 {
            Dir::Left
        } else if i == 1 {
            Dir::Up
        } else if i == 2 {
            Dir::Right
        } else {
            Dir::Down
        }
    }

    pub fn opposite(self) -> (r: Dir)
        ensures
            r == self.opp(),
    {
        match self {
            Dir::Left => Dir::Right,
            Dir::Up => Dir::Down,
            Dir::Right => Dir::Left,
            Dir::Down => Dir::Up,
        }
    }

    /// The letter of a direction: `L`, `U`, `R` or `D`.
    pub fn to_char(self) -> (c: char)
        ensures
            Dir::char_spec(c) == Some(self),
    {
        match self {
            Dir::Left => 'L',
            Dir::Up => 'U',
            Dir::Right => 'R',
            Dir::Down => 'D',
        }
    }

    pub open spec fn char_spec(c: char) -> Option<Dir> {
        if c == 'L' {
            Some(Dir::Left)
        } else if c == 'U' {
            Some(Dir::Up)
        } else if c == 'R' {
            Some(Dir::Right)
        } else if c == 'D' {
            Some(Dir::Down)
        } else {
            None
        }
    }

    /// The direction that a letter names, if it names one.
    pub fn from_char(c: char) -> (r: Option<Dir>)
        ensures
            r == Dir::char_spec(c),
    {
        if c == 'L' {
            Some(Dir::Left)
        } else if c == 'U' {
            Some(Dir::Up)
        } else if c == 'R' {
            Some(Dir::Right)
        } else if c == 'D' {
            Some(Dir::Down)
        } else {
            None
        }
    }
}

/// The cell next to cell `p` (row-major index) of an `n`×`n` grid in direction `d`.
pub open spec fn step(n: int, p: int, d: Dir) -> Option<int> {
    match d {
        Dir::Left => if p % n != 0 {
            Some(p - 1)
        } else {
            None
        },
        Dir::Right => if p % n != n - 1 {
            Some(p + 1)
        } else {
            None
        },
        Dir::Up => if p >= n {
            Some(p - n)
        } else {
            None
        },
        Dir::Down => if p + n < n * n {
            Some(p + n)
        } else {
            None
        },
    }
}

/// A neighbour lies on the grid, and the way back leads to where one came from.
pub proof fn lemma_step(n: int, p: int, d: Dir)
    requires
        n >= 1,
        0 <= p < n * n,
    ensures
        step(n, p, d) matches Some(q) ==> 0 <= q < n * n && step(n, q, d.opp()) == Some(p),
{
    lemma_fundamental_div_mod(p, n);
    lemma_mod_pos_bound(p, n);
    let r = p % n;
    let k = p / n;
    assert(p == k * n + r) by (nonlinear_arith)
        requires
            p == n * (p / n) + p % n,
            r == p % n,
            k == p / n,
    ;
    assert(0 <= k < n) by (nonlinear_arith)
        requires
            p == k * n + r,
            0 <= r < n,
            0 <= p < n * n,
    ;
    match d {
        Dir::Right => {
            if r != n - 1 {
                assert(p + 1 < n * n) by (nonlinear_arith)
                    requires
                        p == k * n + r,
                        0 <= r < n - 1,
                        0 <= k < n,
                ;
                lemma_fundamental_div_mod_converse_mod(p + 1, n, k, r + 1);
            }
        },
        Dir::Left => {
            if r != 0 {
                lemma_fundamental_div_mod_converse_mod(p - 1, n, k, r - 1);
            }
        },
        _ => {},
    }
}

/// Exchange of two entries of a sequence.
pub open spec fn swap_seq(s: Seq<u8>, i: int, j: int) -> Seq<u8> {
    s.update(i, s[j]).update(j, s[i])
}

/// The mathematical value of a board: side length, row-major cells and the
/// index of the empty slot.
pub struct Grid {
    pub n: int,
    pub cells: Seq<u8>,
    pub empty: int,
}

impl Grid {
    /// Exactly one cell is 0, and `empty` is its index.
    pub open spec fn wf(self) -> bool {
        &&& self.n >= 1
        &&& self.cells.len() == self.n * self.n
        &&& 0 <= self.empty < self.cells.len()
        &&& self.cells[self.empty] == 0
        &&& forall|i: int| 0 <= i < self.cells.len() && self.cells[i] == 0 ==> i == self.empty
    }

    /// The board after the empty slot travels one cell in direction `d`, if it can.
    pub open spec fn after(self, d: Dir) -> Option<Grid> {
        match step(self.n, self.empty, d) {
            Some(t) => Some(
                Grid { n: self.n, cells: swap_seq(self.cells, self.empty, t), empty: t },
            ),
            None => None,
        }
    }

    /// The board after a whole sequence of moves, or `None` if one of them
    /// leaves the grid.
    pub open spec fn replay(self, moves: Seq<Dir>) -> Option<Grid>
        decreases moves.len(),
    {
        if moves.len() == 0 {
            Some(self)
        } else {
            match self.replay(moves.drop_last()) {
                Some(g) => g.after(moves.last()),
                None => None,
            }
        }
    }
}

/// A legal move keeps exactly one empty cell and keeps `empty` on it.
pub proof fn lemma_after_wf(g: Grid, d: Dir)
    requires
        g.wf(),
    ensures
        g.after(d) matches Some(h) ==> h.wf() && h.n == g.n,
{
    lemma_step(g.n, g.empty, d);
    if let Some(h) = g.after(d) {
        let t = h.empty;
        assert forall|i: int| 0 <= i < h.cells.len() && h.cells[i] == 0 implies i == h.empty by {
            if i != t && i != g.empty {
                assert(h.cells[i] == g.cells[i]);
            }
            if i == g.empty {
                assert(h.cells[i] == g.cells[t]);
            }
        }
    }
}

/// Moving the empty slot and then moving it back restores the board.
pub proof fn lemma_move_reversible(g: Grid, d: Dir)
    requires
        g.wf(),
    ensures
        g.after(d) matches Some(h) ==> h.after(d.opp()) == Some(g),
{
    lemma_step(g.n, g.empty, d);
    if let Some(h) = g.after(d) {
        let back = h.after(d.opp()).unwrap();
        assert(back.cells =~= g.cells);
    }
}

/// A whole legal sequence of moves keeps the board well formed.
pub proof fn lemma_replay_wf(g: Grid, moves: Seq<Dir>)
    requires
        g.wf(),
    ensures
        g.replay(moves) matches Some(h) ==> h.wf() && h.n == g.n,
    decreases moves.len(),
{
    if moves.len() > 0 {
        lemma_replay_wf(g, moves.drop_last());
        if let Some(m) = g.replay(moves.drop_last()) {
            lemma_after_wf(m, moves.last());
        }
    }
}

/// Replaying two sequences one after the other is replaying their concatenation.
pub proof fn lemma_replay_concat(g: Grid, a: Seq<Dir>, b: Seq<Dir>)
    ensures
        g.replay(a + b) == (match g.replay(a) {
            Some(m) => m.replay(b),
            None => None,
        }),
    decreases b.len(),
{
    if b.len() == 0 {
        assert(a + b =~= a);
    } else {
        assert((a + b).drop_last() =~= a + b.drop_last());
        lemma_replay_concat(g, a, b.drop_last());
        if g.replay(a) is None {
            lemma_replay_none(g, a, b);
        }
    }
}

/// Once a sequence of moves fails, every extension of it fails too.
pub proof fn lemma_replay_none(g: Grid, a: Seq<Dir>, b: Seq<Dir>)
    requires
        g.replay(a) is None,
    ensures
        g.replay(a + b) is None,
    decreases b.len(),
{
    if b.len() == 0 {
        assert(a + b =~= a);
    } else {
        assert((a + b).drop_last() =~= a + b.drop_last());
        lemma_replay_none(g, a, b.drop_last());
    }
}

/// Appending one move to a sequence of moves.
pub proof fn lemma_replay_push(g: Grid, a: Seq<Dir>, d: Dir)
    ensures
        g.replay(a.push(d)) == (match g.replay(a) {
            Some(m) => m.after(d),
            None => None,
        }),
{
    assert(a.push(d).drop_last() =~= a);
}

/// Every prefix of a legal sequence of moves is legal.
pub proof fn lemma_replay_prefix(g: Grid, a: Seq<Dir>, k: int)
    requires
        0 <= k <= a.len(),
        g.replay(a) is Some,
    ensures
        g.replay(a.take(k)) is Some,
{
    assert(a =~= a.take(k) + a.skip(k));
    lemma_replay_concat(g, a.take(k), a.skip(k));
}

/// Replaying a sequence whose first illegal move comes right after the legal
/// part `good` succeeds on every prefix up to `good` and fails on every longer
/// one.
pub proof fn lemma_first_illegal_move(g: Grid, good: Seq<Dir>, bad: Dir, rest: Seq<Dir>, k: int)
    requires
        g.replay(good) matches Some(h) && h.after(bad) is None,
        0 <= k <= good.len() + 1 + rest.len(),
    ensures
        k <= good.len() ==> g.replay((good.push(bad) + rest).take(k)) is Some,
        k > good.len() ==> g.replay((good.push(bad) + rest).take(k)) is None,
{
    let s = good.push(bad) + rest;
    if k <= good.len() {
        assert(s.take(k) =~= good.take(k));
        lemma_replay_prefix(g, good, k);
    } else {
        lemma_replay_push(g, good, bad);
        assert(s.take(k) =~= good.push(bad) + rest.take(k - good.len() - 1));
        lemma_replay_none(g, good.push(bad), rest.take(k - good.len() - 1));
    }
}

/// An N×N board of connector tiles with one empty slot.
#[derive(Debug, PartialEq, Eq)]
pub struct Board {
    /// Side length N.
    pub size: usize,
    /// The N² cells in row-major order; 0 is the empty slot.
    pub cells: Vec<u8>,
    /// Row-major index of the empty slot.
    pub empty: usize,
}

impl View for Board {
    type V = Grid;

    open spec fn view(&self) -> Grid {
        Grid { n: self.size as int, cells: self.cells@, empty: self.empty as int }
    }
}

/// Some cell below index `k` holds 0.
pub open spec fn has_zero_before(cells: Seq<u8>, k: int) -> bool {
    exists|i: int| 0 <= i < k && cells[i] == 0
}

impl Board {
    pub open spec fn wf(&self) -> bool {
        self@.wf() && self.cells@.len() <= usize::MAX
    }

    /// Builds a board from its side length and its cells in row-major order.
    /// It is refused unless there are N² cells of which exactly one is 0.
    pub fn new(size: usize, cells: Vec<u8>) -> (r: Option<Board>)
        ensures
            r is Some <==> (size >= 1 && cells@.len() == size * size && exists|e: int|
                0 <= e < cells@.len() && cells@[e] == 0 && forall|i: int|
                    0 <= i < cells@.len() && cells@[i] == 0 ==> i == e),
            r matches Some(b) ==> b.wf() && b.size == size && b.cells@ == cells@,
    {
        let len = cells.len();
        let nn = match size.checked_mul(size) {
            Some(nn) => nn,
            None => {
                return None;
            },
        };
        if size == 0 || len != nn {
            return None;
        }
        let mut found: Option<usize> = None;
        let mut i: usize = 0;
        while i < cells.len()
            invariant
                i <= cells@.len(),
                found matches Some(e) ==> e < i && cells@[e as int] == 0 && forall|j: int|
                    0 <= j < i && cells@[j] == 0 ==> j == e,
                found is None ==> forall|j: int| 0 <= j < i ==> cells@[j] != 0,
            decreases cells.len() - i,
        {
            if cells[i] == 0 {
                if found.is_some() {
                    return None;
                }
                found = Some(i);
            }
            i += 1;
        }
        match found {
            Some(e) => Some(Board { size, cells, empty: e }),
            None => None,
        }
    }

    pub fn size(&self) -> (r: usize)
        ensures
            r == self.size,
    {
        self.size
    }

    /// (row, column) of the empty slot.
    pub fn empty_position(&self) -> (r: (usize, usize))
        requires
            self.wf(),
        ensures
            r.0 * self.size + r.1 == self.empty,
            r.1 < self.size,
            self.cells@[r.0 * self.size + r.1] == 0,
    {
        proof {
            lemma_fundamental_div_mod(self.empty as int, self.size as int);
            lemma_mod_pos_bound(self.empty as int, self.size as int);
            assert((self.empty / self.size) * self.size == self.size * (self.empty / self.size))
                by (nonlinear_arith);
        }
        (self.empty / self.size, self.empty % self.size)
    }

    /// Value of the cell at row `h`, column `w`.
    pub fn get(&self, h: usize, w: usize) -> (r: u8)
        requires
            self.wf(),
            h < self.size,
            w < self.size,
        ensures
            r == self.cells@[h * self.size + w],
    {
        proof {
            lemma_cell_index(self.size as int, h as int, w as int);
            assert(h * self.size + w < self.size * self.size);
        }
        self.cells[h * self.size + w]
    }

    /// Copy of the board, equal in value.
    pub fn duplicate(&self) -> (r: Board)
        ensures
            r@ == self@,
    {
        Board { size: self.size, cells: self.cells.clone(), empty: self.empty }
    }

    /// Exchanges cells `a` and `b` (row-major indices) whatever they hold,
    /// bypassing the empty-slot protocol: when one of them is the empty slot,
    /// `resync_empty` must follow.
    pub fn swap(&mut self, a: usize, b: usize)
        requires
            a < old(self).cells@.len(),
            b < old(self).cells@.len(),
        ensures
            final(self).cells@ == swap_seq(old(self).cells@, a as int, b as int),
            final(self).size == old(self).size,
            final(self).empty == old(self).empty,
    {
        let x = self.cells[a];
        let y = self.cells[b];
        self.cells.set(a, y);
        self.cells.set(b, x);
    }

    /// Sets the cell at row `h`, column `w` to `v`, whatever it held.
    pub fn set(&mut self, h: usize, w: usize, v: u8)
        requires
            old(self).cells@.len() == old(self).size * old(self).size,
            h < old(self).size,
            w < old(self).size,
        ensures
            final(self).cells@ == old(self).cells@.update(h * old(self).size + w, v),
            final(self).size == old(self).size,
            final(self).empty == old(self).empty,
    {
        let len = self.cells.len();
        proof {
            lemma_cell_index(self.size as int, h as int, w as int);
        }
        let i = h * self.size + w;
        self.cells.set(i, v);
    }

    /// Points `empty` at the first cell that holds 0; `false` when none does,
    /// and then the board is left as it was.
    pub fn resync_empty(&mut self) -> (found: bool)
        ensures
            final(self).cells@ == old(self).cells@,
            final(self).size == old(self).size,
            found == has_zero_before(old(self).cells@, old(self).cells@.len() as int),
            found ==> final(self).empty < final(self).cells@.len() && final(self).cells@[final(self).empty as int] == 0
                && !has_zero_before(final(self).cells@, final(self).empty as int),
            !found ==> final(self).empty == old(self).empty,
    {
        let mut i: usize = 0;
        while i < self.cells.len()
            invariant
                i <= self.cells@.len(),
                self.cells@ == old(self).cells@,
                self.size == old(self).size,
                self.empty == old(self).empty,
                !has_zero_before(self.cells@, i as int),
            decreases self.cells.len() - i,
        {
            if self.cells[i] == 0 {
                self.empty = i;
                return true;
            }
            i += 1;
            proof {
                assert forall|j: int| 0 <= j < i implies self.cells@[j] != 0 by {
                    if j < i - 1 {
                        assert(!has_zero_before(self.cells@, i - 1));
                    }
                }
            }
        }
        false
    }

    /// The neighbour of cell `p` in direction `d`, if it lies on the grid.
    pub fn neighbor(&self, p: usize, d: Dir) -> (r: Option<usize>)
        requires
            self.wf(),
            p < self.cells@.len(),
        ensures
            r matches Some(q) ==> step(self.size as int, p as int, d) == Some(q as int),
            r is None ==> step(self.size as int, p as int, d) is None,
            r matches Some(q) ==> q < self.cells@.len(),
    {
        proof {
            lemma_step(self.size as int, p as int, d);
            let n = self.size as int;
            assert(n <= n * n) by (nonlinear_arith)
                requires
                    n >= 1,
            ;
        }
        let n = self.size;
        let nn = self.cells.len();
        match d {
            Dir::Left => if p % n != 0 {
                Some(p - 1)
            } else {
                None
            },
            Dir::Right => if p % n != n - 1 {
                Some(p + 1)
            } else {
                None
            },
            Dir::Up => if p >= n {
                Some(p - n)
            } else {
                None
            },
            Dir::Down => if p < nn - n {
                Some(p + n)
            } else {
                None
            },
        }
    }

    /// Moves the empty slot one cell in direction `d`. Off the grid the move is
    /// refused, `false` comes back and the board stays as it was.
    pub fn move_empty(&mut self, d: Dir) -> (ok: bool)
        requires
            old(self).wf(),
        ensures
            final(self).wf(),
            ok == old(self)@.after(d) is Some,
            ok ==> Some(final(self)@) == old(self)@.after(d),
            !ok ==> final(self)@ == old(self)@,
    {
        proof {
            lemma_after_wf(self@, d);
        }
        match self.neighbor(self.empty, d) {
            Some(t) => {
                let e = self.empty;
                let v = self.cells[t];
                self.cells.set(e, v);
                self.cells.set(t, 0);
                self.empty = t;
                proof {
                    assert(self.cells@ =~= swap_seq(old(self).cells@, e as int, t as int));
                }
                true
            },
            None => false,
        }
    }

    /// Replays `moves` on the board. On the first illegal move the whole
    /// sequence is refused, `false` comes back and the board is left as it
    /// was; otherwise the board becomes the one the moves lead to.
    pub fn apply_moves(&mut self, moves: &Vec<Dir>) -> (ok: bool)
        requires
            old(self).wf(),
        ensures
            final(self).wf(),
            ok == old(self)@.replay(moves@) is Some,
            ok ==> Some(final(self)@) == old(self)@.replay(moves@),
            !ok ==> final(self)@ == old(self)@,
    {
        let mut work = self.duplicate();
        let mut i: usize = 0;
        while i < moves.len()
            invariant
                self.wf(),
                i <= moves@.len(),
                Some(work@) == self@.replay(moves@.take(i as int)),
                work.wf(),
            decreases moves.len() - i,
        {
            proof {
                lemma_replay_push(self@, moves@.take(i as int), moves@[i as int]);
                assert(moves@.take(i as int).push(moves@[i as int]) =~= moves@.take(i + 1));
            }
            if !work.move_empty(moves[i]) {
                proof {
                    lemma_replay_none(
                        self@,
                        moves@.take(i + 1),
                        moves@.subrange(i + 1, moves@.len() as int),
                    );
                    assert(moves@.take(i + 1) + moves@.subrange(i + 1, moves@.len() as int)
                        =~= moves@);
                }
                return false;
            }
            i += 1;
        }
        proof {
            assert(moves@.take(i as int) =~= moves@);
        }
        *self = work;
        true
    }
}

/// Value of a hexadecimal digit (`0`–`9`, `a`–`f`, `A`–`F`).
pub open spec fn hex_spec(c: char) -> Option<u8> {
    if '0' <= c && c <= '9' {
        Some((c as u32 - '0' as u32) as u8)
    } else if 'a' <= c && c <= 'f' {
        Some((c as u32 - 'a' as u32 + 10) as u8)
    } else if 'A' <= c && c <= 'F' {
        Some((c as u32 - 'A' as u32 + 10) as u8)
    } else {
        None
    }
}

/// Value of a hexadecimal digit, the way a board's cells are written.
pub fn hex_value(c: char) -> (r: Option<u8>)
    ensures
        r == hex_spec(c),
{
    if '0' <= c && c <= '9' {
        Some((c as u32 - '0' as u32) as u8)
    } else if 'a' <= c && c <= 'f' {
        Some((c as u32 - 'a' as u32 + 10) as u8)
    } else if 'A' <= c && c <= 'F' {
        Some((c as u32 - 'A' as u32 + 10) as u8)
    } else {
        None
    }
}

/// The hexadecimal digit of a cell value below 16, in lower case.
pub fn hex_digit(v: u8) -> (c: char)
    requires
        v < 16,
    ensures
        hex_spec(c) == Some(v),
{
    if v < 10 {
        (v + 48) as char
    } else {
        (v - 10 + 97) as char
    }
}

/// A (row, column) pair of an N×N grid has a row-major index on the grid.
pub proof fn lemma_cell_index(n: int, h: int, w: int)
    requires
        0 <= h < n,
        0 <= w < n,
    ensures
        0 <= h * n + w < n * n,
{
    assert(0 <= h * n + w < n * n) by (nonlinear_arith)
        requires
            0 <= h < n,
            0 <= w < n,
    ;
}

} // verus!
