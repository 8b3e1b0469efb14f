use crate::board::{
    lemma_after_wf, lemma_replay_push, lemma_replay_concat, lemma_replay_wf, lemma_step, step, Board, Dir, Grid,
};
use crate::path::{clear, find_path, follow, reachable, search_tiles};
use vstd::arithmetic::div_mod::lemma_fundamental_div_mod_converse_mod;
use vstd::prelude::*;

verus! {

/// The empty slot travels along the moves it is given.
pub proof fn lemma_replay_follow(g: Grid, moves: Seq<Dir>)
    ensures
        g.replay(moves) is Some <==> follow(g.n, g.empty, moves) is Some,
        g.replay(moves) matches Some(h) ==> Some(h.empty) == follow(g.n, g.empty, moves) && h.n
            == g.n,
    decreases moves.len(),
{
    if moves.len() > 0 {
        lemma_replay_follow(g, moves.drop_last());
    }
}

/// Moving the empty slot along a walk that enters no fixed cell leaves every
/// fixed tile where it was.
pub proof fn lemma_replay_keeps_fixed(g: Grid, moves: Seq<Dir>, fixed: Seq<bool>)
    requires
        g.wf(),
        fixed.len() == g.cells.len(),
        clear(g.n, fixed, g.empty, moves),
        g.replay(moves) is Some,
    ensures
        forall|q: int|
            0 <= q < g.cells.len() && fixed[q] && g.cells[q] != 0 ==> #[trigger] g.replay(
                moves,
            ).unwrap().cells[q] == g.cells[q],
    decreases moves.len(),
{
    if moves.len() > 0 {
        let pre = moves.drop_last();
        lemma_replay_follow(g, moves);
        lemma_replay_follow(g, pre);
        lemma_replay_keeps_fixed(g, pre, fixed);
        lemma_replay_wf(g, pre);
        let h = g.replay(pre).unwrap();
        let t = follow(g.n, g.empty, moves).unwrap();
        assert(!fixed[t]);
        assert(follow(g.n, g.empty, pre) == Some(h.empty));
        assert(step(g.n, h.empty, moves.last()) == Some(t));
        let h2 = g.replay(moves).unwrap();
        assert(h2.cells == crate::board::swap_seq(h.cells, h.empty, t));
        assert(h.wf() && h.n == g.n);
        assert(h.cells.len() == g.cells.len());
        lemma_step(g.n, h.empty, moves.last());
        assert forall|q: int|
            0 <= q < g.cells.len() && fixed[q] && g.cells[q] != 0 implies #[trigger] g.replay(
                moves,
            ).unwrap().cells[q] == g.cells[q] by {
            assert(h.cells[q] == g.cells[q]);
            assert(q != h.empty);
            assert(q != t);
            assert(h2.cells[q] == h.cells[q]);
        }
    }
}

/// The moves added to `after` past the first `before.len()` lead from `g0`
/// to `g2` when the first ones led to `g1`.
pub proof fn lemma_extend_run(g0: Grid, g1: Grid, g2: Grid, before: Seq<Dir>, after: Seq<Dir>)
    requires
        g0.replay(before) == Some(g1),
        after.len() >= before.len(),
        after.take(before.len() as int) == before,
        g1.replay(after.skip(before.len() as int)) == Some(g2),
    ensures
        g0.replay(after) == Some(g2),
{
    let rest = after.skip(before.len() as int);
    assert(after =~= before + rest);
    lemma_replay_concat(g0, before, rest);
}

/// Appends `moves` to `solution`.
pub fn append_moves(solution: &mut Vec<Dir>, moves: &Vec<Dir>)
    ensures
        final(solution)@ == old(solution)@ + moves@,
{
    let mut i: usize = 0;
    while i < moves.len()
        invariant
            i <= moves@.len(),
            solution@ == old(solution)@ + moves@.take(i as int),
        decreases moves.len() - i,
    {
        solution.push(moves[i]);
        i += 1;
        proof {
            assert(solution@ =~= old(solution)@ + moves@.take(i as int));
        }
    }
    proof {
        assert(moves@.take(i as int) =~= moves@);
    }
}

/// What every placement step promises: the moves it appends lead from the old
/// board to the new one, and no fixed tile is disturbed.
pub open spec fn placement_run(
    b0: Board,
    b1: Board,
    s0: Seq<Dir>,
    s1: Seq<Dir>,
    fixed: Seq<bool>,
) -> bool {
    &&& b1.wf()
    &&& b1.size == b0.size
    &&& s1.len() >= s0.len()
    &&& s1.take(s0.len() as int) == s0
    &&& b0@.replay(s1.skip(s0.len() as int)) == Some(b1@)
    &&& forall|q: int|
        0 <= q < b0.cells@.len() && fixed[q] && b0.cells@[q] != 0 ==> #[trigger] b1.cells@[q]
            == b0.cells@[q]
}

/// Moves the empty slot to `goal` along a shortest walk that enters no fixed
/// cell, and appends the moves to `solution`. When `goal` cannot be reached
/// that way, nothing changes and `false` comes back.
pub fn move_empty_to_goal(
    board: &mut Board,
    goal: usize,
    solution: &mut Vec<Dir>,
    fixed: &Vec<bool>,
) -> (ok: bool)
    requires
        old(board).wf(),
        goal < old(board).cells@.len(),
        fixed@.len() == old(board).cells@.len(),
    ensures
        placement_run(*old(board), *final(board), old(solution)@, final(solution)@, fixed@),
        ok <==> reachable(old(board).size as int, fixed@, old(board).empty as int, goal as int),
        ok ==> final(board).empty == goal,
        !ok ==> final(board)@ == old(board)@ && final(solution)@ == old(solution)@,
{
    match find_path(board, board.empty, goal, fixed) {
        None => {
            proof {
                assert(solution@.skip(solution@.len() as int) =~= Seq::<Dir>::empty());
                assert(solution@.take(solution@.len() as int) =~= solution@);
            }
            false
        },
        Some(path) => {
            let ghost g = board@;
            proof {
                lemma_replay_follow(g, path@);
                lemma_replay_keeps_fixed(g, path@, fixed@);
            }
            let ok = board.apply_moves(&path);
            assert(ok);
            append_moves(solution, &path);
            proof {
                assert(solution@.skip(old(solution)@.len() as int) =~= path@);
                assert(solution@.take(old(solution)@.len() as int) =~= old(solution)@);
            }
            true
        },
    }
}

/// Cell holding the dragged tile after `k` steps of `path` from `start`.
pub open spec fn drag_pos(n: int, start: int, path: Seq<Dir>, k: int) -> int {
    follow(n, start, path.take(k)).unwrap()
}

/// Where the empty slot stands before step `k` of a drag: where it started
/// for the first step, and where the tile stood one step earlier afterwards.
pub open spec fn drag_empty(n: int, empty0: int, start: int, path: Seq<Dir>, k: int) -> int {
    if k == 0 {
        empty0
    } else {
        drag_pos(n, start, path, k - 1)
    }
}

/// At step `k` of the drag the empty slot cannot reach the cell in front of
/// the tile without crossing the tile or a fixed cell.
pub open spec fn step_blocked(n: int, fixed: Seq<bool>, empty0: int, start: int, path: Seq<Dir>, k: int) -> bool {
    !reachable(
        n,
        fixed.update(drag_pos(n, start, path, k), true),
        drag_empty(n, empty0, start, path, k),
        drag_pos(n, start, path, k + 1),
    )
}

/// Some step of dragging the tile at `start` along `path` is blocked.
pub open spec fn drag_blocked(n: int, fixed: Seq<bool>, empty0: int, start: int, path: Seq<Dir>) -> bool {
    exists|k: int| 0 <= k < path.len() && #[trigger] step_blocked(n, fixed, empty0, start, path, k)
}

/// A shortest walk from `start` to `goal` that enters no fixed cell.
pub open spec fn shortest_walk(n: int, fixed: Seq<bool>, start: int, goal: int, p: Seq<Dir>) -> bool {
    &&& follow(n, start, p) == Some(goal)
    &&& clear(n, fixed, start, p)
    &&& forall|q: Seq<Dir>|
        #[trigger] follow(n, start, q) == Some(goal) && clear(n, fixed, start, q) ==> p.len() <= q.len()
}

/// The tile at `c` cannot be brought to `goal`: no walk leads there, or the
/// shortest walk that was tried is blocked.
pub open spec fn cannot_drag(n: int, fixed: Seq<bool>, empty0: int, c: int, goal: int) -> bool {
    ||| !reachable(n, fixed, c, goal)
    ||| exists|p: Seq<Dir>| #[trigger] shortest_walk(n, fixed, c, goal, p) && drag_blocked(n, fixed, empty0, c, p)
}

/// The tile that `target` holds at `tile_at` cannot be placed at `goal` of
/// `b` around the fixed cells: it is not there yet, and for the empty slot no
/// walk leads there, while for a tile every candidate reachable from `goal`
/// cannot be dragged.
pub open spec fn placement_stuck(b: Board, target: Board, fixed: Seq<bool>, goal: int, tile_at: int) -> bool {
    let n = b.size as int;
    let tile = target.cells@[tile_at];
    &&& b.cells@[goal] != tile
    &&& tile == 0 ==> !reachable(n, fixed, b.empty as int, goal)
    &&& tile != 0 ==> forall|c: int|
        0 <= c < b.cells@.len() && b.cells@[c] == tile && reachable(n, fixed, goal, c) ==> #[trigger] cannot_drag(
            n,
            fixed,
            b.empty as int,
            c,
            goal,
        )
}

/// Brings a tile equal to `target`'s tile at `tile_at` to cell `goal`: the
/// candidate tiles are those that can reach `goal` without crossing a fixed
/// cell, nearest first; each is dragged along a shortest walk, one step at a
/// time, by bringing the empty slot round in front of it without touching it
/// or a fixed cell. A tile already at `goal` counts as placed at once; else
/// the first candidate that can be dragged all the way wins, and when none
/// can, nothing changes and `false` comes back.
pub fn move_tile(
    board: &mut Board,
    target: &Board,
    tile_at: usize,
    goal: usize,
    solution: &mut Vec<Dir>,
    fixed: &Vec<bool>,
) -> (ok: bool)
    requires
        old(board).wf(),
        tile_at < target.cells@.len(),
        goal < old(board).cells@.len(),
        fixed@.len() == old(board).cells@.len(),
    ensures
        placement_run(*old(board), *final(board), old(solution)@, final(solution)@, fixed@),
        ok ==> final(board).cells@[goal as int] == target.cells@[tile_at as int],
        !ok ==> final(board)@ == old(board)@ && final(solution)@ == old(solution)@,
        old(board).cells@[goal as int] == target.cells@[tile_at as int] ==> ok && final(solution)@
            == old(solution)@,
        target.cells@[tile_at as int] == 0 ==> (ok <==> (old(board).cells@[goal as int] == 0 || reachable(
            old(board).size as int,
            fixed@,
            old(board).empty as int,
            goal as int,
        ))),
        !ok ==> placement_stuck(*old(board), *target, fixed@, goal as int, tile_at as int),
{
    let tile = target.cells[tile_at];
    if board.cells[goal] == tile {
        proof {
            assert(solution@.skip(solution@.len() as int) =~= Seq::<Dir>::empty());
            assert(solution@.take(solution@.len() as int) =~= solution@);
        }
        return true;
    }
    if tile == 0 {
        return move_empty_to_goal(board, goal, solution, fixed);
    }
    proof {
        assert(solution@.skip(solution@.len() as int) =~= Seq::<Dir>::empty());
        assert(solution@.take(solution@.len() as int) =~= solution@);
    }
    let candidates = match search_tiles(board, tile, goal, fixed) {
        Some(c) => c,
        None => {
            return false;
        },
    };
    let mut ci: usize = 0;
    while ci < candidates.len()
        invariant
            board.wf(),
            *board == *old(board),
            *solution == *old(solution),
            fixed@.len() == board.cells@.len(),
            goal < board.cells@.len(),
            tile != 0,
            tile == target.cells@[tile_at as int],
            board.cells@[goal as int] != tile,
            solution@.skip(solution@.len() as int) == Seq::<Dir>::empty(),
            solution@.take(solution@.len() as int) == solution@,
            forall|i: int|
                0 <= i < candidates@.len() ==> #[trigger] candidates@[i] < board.cells@.len()
                    && board.cells@[candidates@[i] as int] == tile && reachable(
                    board.size as int,
                    fixed@,
                    goal as int,
                    candidates@[i] as int,
                ),
            crate::path::lists_all_tiles(board.cells@, board.size as int, fixed@, goal as int, tile, candidates@),
            ci <= candidates@.len(),
            forall|k: int|
                0 <= k < ci ==> #[trigger] cannot_drag(
                    board.size as int,
                    fixed@,
                    board.empty as int,
                    candidates@[k] as int,
                    goal as int,
                ),
        decreases candidates.len() - ci,
    {
        let start = candidates[ci];
        match find_path(board, start, goal, fixed) {
            Some(path) => {
                match drag_tile(board, start, &path, fixed) {
                    Some(res) => {
                        let (moves, moved) = res;
                        proof {
                            assert(moves@.skip(0) =~= moves@);
                        }
                        *board = moved;
                        append_moves(solution, &moves);
                        proof {
                            assert(solution@.skip(old(solution)@.len() as int) =~= moves@);
                            assert(solution@.take(old(solution)@.len() as int) =~= old(solution)@);
                        }
                        return true;
                    },
                    None => {
                        proof {
                            assert(shortest_walk(board.size as int, fixed@, start as int, goal as int, path@));
                            assert(cannot_drag(board.size as int, fixed@, board.empty as int, start as int, goal as int));
                        }
                    },
                }
            },
            None => {
                proof {
                    assert(cannot_drag(board.size as int, fixed@, board.empty as int, start as int, goal as int));
                }
            },
        }
        ci += 1;
    }
    proof {
        assert forall|c: int|
            0 <= c < board.cells@.len() && board.cells@[c] == tile && reachable(board.size as int, fixed@, goal as int, c)
                implies #[trigger] cannot_drag(board.size as int, fixed@, board.empty as int, c, goal as int) by {
            let m = choose|m: int| 0 <= m < candidates@.len() && #[trigger] candidates@[m] == c;
            assert(cannot_drag(board.size as int, fixed@, board.empty as int, candidates@[m] as int, goal as int));
        }
    }
    false
}

/// Drags the tile at `start` along `path` on a copy of the board, never
/// disturbing a fixed tile. On success it returns the moves made and the
/// board they lead to, whose cell at the end of `path` holds the tile.
pub fn drag_tile(board: &Board, start: usize, path: &Vec<Dir>, fixed: &Vec<bool>) -> (r: Option<(Vec<Dir>, Board)>)
    requires
        board.wf(),
        start < board.cells@.len(),
        board.cells@[start as int] != 0,
        fixed@.len() == board.cells@.len(),
        !fixed@[start as int],
        follow(board.size as int, start as int, path@) is Some,
        clear(board.size as int, fixed@, start as int, path@),
    ensures
        r matches Some(res) ==> placement_run(*board, res.1, Seq::empty(), res.0@, fixed@)
            && res.1.cells@[follow(board.size as int, start as int, path@).unwrap()] == board.cells@[start as int],
        r is None <==> drag_blocked(board.size as int, fixed@, board.empty as int, start as int, path@),
{
    let ghost n = board.size as int;
    let tile = board.cells[start];
    let mut work = board.duplicate();
    let mut moves: Vec<Dir> = Vec::new();
    let mut pos = start;
    let mut i: usize = 0;
    proof {
        assert(path@.take(0) =~= Seq::<Dir>::empty());
        assert(moves@.skip(0) =~= moves@);
    }
    while i < path.len()
        invariant
            board.wf(),
            n == board.size,
            work.wf(),
            work.size == board.size,
            fixed@.len() == board.cells@.len(),
            tile == board.cells@[start as int],
            tile != 0,
            i <= path@.len(),
            follow(n, start as int, path@) is Some,
            clear(n, fixed@, start as int, path@),
            follow(n, start as int, path@.take(i as int)) == Some(pos as int),
            pos < board.cells@.len(),
            !fixed@[pos as int],
            work.cells@[pos as int] == tile,
            placement_run(*board, work, Seq::empty(), moves@, fixed@),
            work.empty == drag_empty(n, board.empty as int, start as int, path@, i as int),
            pos == drag_pos(n, start as int, path@, i as int),
            forall|k: int| 0 <= k < i ==> !#[trigger] step_blocked(n, fixed@, board.empty as int, start as int, path@, k),
        decreases path.len() - i,
    {
        let d = path[i];
        proof {
            lemma_follow_prefix(n, fixed@, start as int, path@, i as int + 1);
            assert(path@.take(i as int + 1).drop_last() =~= path@.take(i as int));
            assert(path@.take(i as int + 1).last() == d);
            lemma_step(n, pos as int, d);
        }
        let next = match board.neighbor(pos, d) {
            Some(q) => q,
            None => {
                return None;
            },
        };
        let mut mask = fixed.clone();
        proof {
            assert(mask@ =~= fixed@);
        }
        mask.set(pos, true);
        let ghost w0 = work;
        let ghost m0 = moves@;
        proof {
            assert(next == drag_pos(n, start as int, path@, i + 1));
            assert(mask@ == fixed@.update(drag_pos(n, start as int, path@, i as int), true));
        }
        if !move_empty_to_goal(&mut work, next, &mut moves, &mask) {
            proof {
                assert(step_blocked(n, fixed@, board.empty as int, start as int, path@, i as int));
            }
            return None;
        }
        let ghost w1 = work;
        let ghost m1 = moves@;
        let back = d.opposite();
        proof {
            assert(work.cells@[pos as int] == tile);
            lemma_after_wf(work@, back);
        }
        if !work.move_empty(back) {
            return None;
        }
        moves.push(back);
        proof {
            assert(work.empty == pos);
            assert(work.cells@[next as int] == tile);
            assert(m0.skip(0) =~= m0);
            lemma_extend_run(board@, w0@, w1@, m0, m1);
            lemma_replay_push(board@, m1, back);
            assert(moves@.skip(0) =~= moves@);
            assert(moves@.take(0) =~= Seq::<Dir>::empty());
            assert forall|q: int|
                0 <= q < board.cells@.len() && fixed@[q] && board.cells@[q] != 0 implies #[trigger] work.cells@[q]
                    == board.cells@[q] by {
                assert(w0.cells@[q] == board.cells@[q]);
                assert(mask@[q]);
                assert(w1.cells@[q] == w0.cells@[q]);
            }
            assert(path@.take(i as int + 1) =~= path@.take(i as int).push(d));
            assert(!step_blocked(n, fixed@, board.empty as int, start as int, path@, i as int));
        }
        pos = next;
        i += 1;
    }
    proof {
        assert(path@.take(i as int) =~= path@);
    }
    Some((moves, work))
}

/// Every prefix of a walk that enters no fixed cell is such a walk, and it
/// ends on a cell that is not fixed.
proof fn lemma_follow_prefix(n: int, fixed: Seq<bool>, p: int, path: Seq<Dir>, k: int)
    requires
        1 <= k <= path.len(),
        follow(n, p, path) is Some,
        clear(n, fixed, p, path),
    ensures
        follow(n, p, path.take(k)) is Some,
        clear(n, fixed, p, path.take(k)),
        !fixed[follow(n, p, path.take(k)).unwrap()],
    decreases path.len(),
{
    if k == path.len() {
        assert(path.take(k) =~= path);
    } else {
        assert(path.drop_last().take(k) =~= path.take(k));
        lemma_follow_prefix(n, fixed, p, path.drop_last(), k);
    }
}

/// Row-major index of row `h`, column `w` of an N×N board.
fn cell_index(n: usize, h: usize, w: usize) -> (r: usize)
    requires
        h < n,
        w < n,
        n * n <= usize::MAX,
    ensures
        r == h * n + w,
        r < n * n,
{
    proof {
        crate::board::lemma_cell_index(n as int, h as int, w as int);
    }
    h * n + w
}

/// Distinct (row, column) pairs have distinct row-major indices, and the
/// column is the index modulo N.
proof fn lemma_index_facts(n: int, r1: int, c1: int, r2: int, c2: int)
    requires
        0 <= r1 < n,
        0 <= c1 < n,
        0 <= r2 < n,
        0 <= c2 < n,
    ensures
        (r1 * n + c1 == r2 * n + c2) <==> (r1 == r2 && c1 == c2),
        (r1 * n + c1) % n == c1,
        0 <= r1 * n + c1 < n * n,
{
    lemma_fundamental_div_mod_converse_mod(r1 * n + c1, n, r1, c1);
    lemma_fundamental_div_mod_converse_mod(r2 * n + c2, n, r2, c2);
    crate::board::lemma_cell_index(n, r1, c1);
    if r1 * n + c1 == r2 * n + c2 {
        assert(c1 == c2);
        assert(r1 * n == r2 * n);
        assert(r1 == r2) by (nonlinear_arith)
            requires
                r1 * n == r2 * n,
                n > 0,
        ;
    }
}

/// The moves of `solution` lead from `base` to `board`.
pub open spec fn run_from(base: Board, board: Board, solution: Seq<Dir>) -> bool {
    &&& board.wf()
    &&& board.size == base.size
    &&& base@.replay(solution) == Some(board@)
}

/// Every fixed cell that the target gives a tile holds that tile.
pub open spec fn fixed_good(board: Board, target: Board, fixed: Seq<bool>) -> bool {
    forall|q: int|
        0 <= q < fixed.len() && #[trigger] fixed[q] && target.cells@[q] != 0 ==> board.cells@[q]
            == target.cells@[q]
}

/// Makes one move of the empty slot and records it.
fn push_move(base: &Board, board: &mut Board, solution: &mut Vec<Dir>, d: Dir) -> (ok: bool)
    requires
        run_from(*base, *old(board), old(solution)@),
    ensures
        run_from(*base, *final(board), final(solution)@),
        ok == old(board)@.after(d) is Some,
        ok ==> Some(final(board)@) == old(board)@.after(d),
        !ok ==> final(board)@ == old(board)@ && final(solution)@ == old(solution)@,
{
    if !board.move_empty(d) {
        return false;
    }
    proof {
        lemma_replay_push(base@, solution@, d);
    }
    solution.push(d);
    true
}

/// The moves replay from `base` to `board`, and every fixed cell holds its
/// target tile.
pub open spec fn placed(
    base: Board,
    board: Board,
    target: Board,
    solution: Seq<Dir>,
    fixed: Seq<bool>,
) -> bool {
    run_from(base, board, solution) && fixed_good(board, target, fixed)
}

/// Brings the target's tile for `here` there and fixes it.
fn place_one(
    base: &Board,
    board: &mut Board,
    target: &Board,
    here: usize,
    solution: &mut Vec<Dir>,
    fixed: &mut Vec<bool>,
) -> (ok: bool)
    requires
        placed(*base, *old(board), *target, old(solution)@, old(fixed)@),
        target.cells@.len() == old(board).cells@.len(),
        old(fixed)@.len() == old(board).cells@.len(),
        here < old(board).cells@.len(),
    ensures
        run_from(*base, *final(board), final(solution)@),
        final(fixed)@.len() == old(fixed)@.len(),
        ok ==> placed(*base, *final(board), *target, final(solution)@, final(fixed)@),
        ok ==> final(fixed)@ == old(fixed)@.update(here as int, true),
        !ok ==> fixed_good(*final(board), *target, old(fixed)@) && placement_stuck(
            *final(board),
            *target,
            old(fixed)@,
            here as int,
            here as int,
        ),
{
    let ghost b0 = *board;
    let ghost s0 = solution@;
    let ok = move_tile(board, target, here, here, solution, fixed);
    proof {
        lemma_extend_run(base@, b0@, board@, s0, solution@);
    }
    if !ok {
        proof {
            assert(board.cells@ == b0.cells@);
        }
        return false;
    }
    fixed.set(here, true);
    proof {
        assert forall|q: int|
            0 <= q < fixed@.len() && #[trigger] fixed@[q] && target.cells@[q] != 0 implies board.cells@[q]
                == target.cells@[q] by {
            if q != here {
                assert(old(fixed)@[q]);
                assert(b0.cells@[q] == target.cells@[q]);
            }
        }
    }
    true
}

/// Why the two-tile trick for `here` and `far` (with `aside` as the parking
/// cell) cannot be completed on `b` around the fixed cells: the target leaves
/// one of the two cells empty, or the tile for `far` cannot be brought to
/// `here`, or (that done) the tile for `here` cannot be brought to `aside`, or
/// (both done) the empty slot cannot reach `far`.
pub open spec fn pair_stuck(b: Board, target: Board, fixed: Seq<bool>, here: int, far: int, aside: int) -> bool {
    let t = target.cells@;
    ||| t[far] == 0 || t[here] == 0
    ||| placement_stuck(b, target, fixed, here, far)
    ||| b.cells@[here] == t[far] && placement_stuck(b, target, fixed.update(here, true), aside, here)
    ||| b.cells@[here] == t[far] && b.cells@[aside] == t[here] && !reachable(
        b.size as int,
        fixed.update(here, true).update(aside, true),
        b.empty as int,
        far,
    )
}

/// The two-tile trick at the end of a row or of a column: the tile for `far`
/// goes to `here`, the tile for `here` to `aside`, the empty slot to `far`,
/// and two moves turn both into place; `here` and `far` end fixed.
fn place_two(
    base: &Board,
    board: &mut Board,
    target: &Board,
    here: usize,
    far: usize,
    aside: usize,
    turn1: Dir,
    turn2: Dir,
    solution: &mut Vec<Dir>,
    fixed: &mut Vec<bool>,
) -> (ok: bool)
    requires
        placed(*base, *old(board), *target, old(solution)@, old(fixed)@),
        target.cells@.len() == old(board).cells@.len(),
        old(fixed)@.len() == old(board).cells@.len(),
        here < old(board).cells@.len(),
        far < old(board).cells@.len(),
        aside < old(board).cells@.len(),
        here != far,
        here != aside,
        far != aside,
        !old(fixed)@[here as int],
        !old(fixed)@[far as int],
        !old(fixed)@[aside as int],
        crate::board::step(old(board).size as int, far as int, turn1) == Some(here as int),
        crate::board::step(old(board).size as int, here as int, turn2) == Some(aside as int),
    ensures
        run_from(*base, *final(board), final(solution)@),
        final(fixed)@.len() == old(fixed)@.len(),
        ok ==> placed(*base, *final(board), *target, final(solution)@, final(fixed)@),
        ok ==> final(fixed)@ == old(fixed)@.update(here as int, true).update(far as int, true),
        !ok ==> fixed_good(*final(board), *target, old(fixed)@) && pair_stuck(
            *final(board),
            *target,
            old(fixed)@,
            here as int,
            far as int,
            aside as int,
        ),
{
    let ghost b0 = *board;
    let ghost f0 = fixed@;
    if target.cells[far] == 0 || target.cells[here] == 0 {
        return false;
    }
    let ghost s0 = solution@;
    if !move_tile(board, target, far, here, solution, fixed) {
        proof {
            assert(board.cells@ == b0.cells@ && board.empty == b0.empty && board.size == b0.size);
        }
        return false;
    }
    proof {
        lemma_extend_run(base@, b0@, board@, s0, solution@);
    }
    fixed.set(here, true);
    let ghost b1 = *board;
    let ghost s1 = solution@;
    let ghost f1 = fixed@;
    proof {
        lemma_keep_good(b0, b1, *target, f0, f0);
        assert(f1 == f0.update(here as int, true));
    }
    if !move_tile(board, target, here, aside, solution, fixed) {
        proof {
            assert(board.cells@ == b1.cells@ && board.empty == b1.empty && board.size == b1.size);
        }
        return false;
    }
    proof {
        lemma_extend_run(base@, b1@, board@, s1, solution@);
    }
    fixed.set(aside, true);
    let ghost b2 = *board;
    let ghost s2 = solution@;
    let ghost f2 = fixed@;
    proof {
        lemma_keep_good(b1, b2, *target, f0, f1);
        assert(b2.cells@[here as int] == b1.cells@[here as int]);
        assert(f2 == f0.update(here as int, true).update(aside as int, true));
    }
    if !move_empty_to_goal(board, far, solution, fixed) {
        proof {
            assert(board.cells@ == b2.cells@ && board.empty == b2.empty && board.size == b2.size);
        }
        return false;
    }
    proof {
        lemma_extend_run(base@, b2@, board@, s2, solution@);
    }
    let ghost b3 = *board;
    if !push_move(base, board, solution, turn1) {
        return false;
    }
    let ghost b4 = *board;
    if !push_move(base, board, solution, turn2) {
        return false;
    }
    fixed.set(far, true);
    fixed.set(aside, false);
    proof {
        assert(b1.cells@[here as int] == target.cells@[far as int]);
        assert(b2.cells@[aside as int] == target.cells@[here as int]);
        assert(f1[here as int]);
        assert(b2.cells@[here as int] == b1.cells@[here as int]);
        assert(f2[here as int] && f2[aside as int]);
        assert(b3.cells@[here as int] == b2.cells@[here as int]);
        assert(b3.cells@[aside as int] == b2.cells@[aside as int]);
        assert(b3.empty == far);
        assert(b4.empty == here);
        assert(b4.cells@[far as int] == target.cells@[far as int]);
        assert(board.cells@[here as int] == target.cells@[here as int]);
        assert(board.cells@[far as int] == target.cells@[far as int]);
        assert(fixed@ =~= f0.update(here as int, true).update(far as int, true));
        assert forall|q: int|
            0 <= q < fixed@.len() && #[trigger] fixed@[q] && target.cells@[q] != 0 implies board.cells@[q]
                == target.cells@[q] by {
            if q != here && q != far {
                assert(f0[q]);
                assert(q != aside);
                assert(b0.cells@[q] == target.cells@[q]);
                assert(f1[q] && f2[q]);
                assert(b1.cells@[q] == b0.cells@[q]);
                assert(b2.cells@[q] == b1.cells@[q]);
                assert(b3.cells@[q] == b2.cells@[q]);
                assert(b4.cells@[q] == b3.cells@[q]);
            }
        }
    }
    true
}

/// Fixed tiles that held their target tiles still do after a run that left
/// every cell of a larger mask in place.
proof fn lemma_keep_good(b0: Board, b1: Board, target: Board, f: Seq<bool>, mask: Seq<bool>)
    requires
        fixed_good(b0, target, f),
        f.len() == b0.cells@.len(),
        mask.len() == f.len(),
        forall|q: int| 0 <= q < f.len() && #[trigger] f[q] ==> mask[q],
        forall|q: int|
            0 <= q < b0.cells@.len() && mask[q] && b0.cells@[q] != 0 ==> #[trigger] b1.cells@[q] == b0.cells@[q],
    ensures
        fixed_good(b1, target, f),
{
    assert forall|q: int|
        0 <= q < f.len() && #[trigger] f[q] && target.cells@[q] != 0 implies b1.cells@[q] == target.cells@[q] by {
        assert(b0.cells@[q] == target.cells@[q]);
        assert(mask[q]);
    }
}

/// Cells that the solver places and fixes: all but the last column of the
/// last two rows.
pub open spec fn peeled(n: int, r: int, c: int) -> bool {
    !(c == n - 1 && r >= n - 2)
}

/// Whether the cell at row `r`, column `c` is placed and fixed before the
/// placement at position (`h`, `w`) of the peeling order: earlier rows and
/// earlier cells of the row above the last two rows, then, in the last two
/// rows, earlier columns.
pub open spec fn peeled_before(n: int, h: int, w: int, r: int, c: int) -> bool {
    if h < n - 2 {
        r < h || (r == h && c < w)
    } else {
        r < n - 2 || c < w
    }
}

/// The solver stopped at position (`h`, `w`) with `fixed` as its mask: the
/// mask is the cells peeled before that position, each of which holds its
/// target tile, and the placement there cannot be made.
pub open spec fn stopped_at(b: Board, target: Board, h: int, w: int, fixed: Seq<bool>) -> bool {
    let n = b.size as int;
    &&& 0 <= h <= n - 2
    &&& 0 <= w
    &&& fixed.len() == b.cells@.len()
    &&& forall|r: int, c: int|
        0 <= r < n && 0 <= c < n ==> #[trigger] fixed[r * n + c] == peeled_before(n, h, w, r, c)
    &&& fixed_good(b, target, fixed)
    &&& if h < n - 2 && w < n - 2 {
        placement_stuck(b, target, fixed, h * n + w, h * n + w)
    } else if h < n - 2 {
        w == n - 2 && pair_stuck(b, target, fixed, h * n + w, h * n + w + 1, (h + 1) * n + w)
    } else {
        w < n - 1 && pair_stuck(b, target, fixed, h * n + w, (h + 1) * n + w, h * n + w + 1)
    }
}

/// Builds a sequence of moves that brings `board` towards `target` in the
/// classic sliding-puzzle order: row by row down to the last two rows, with
/// the two-tile trick at the end of each row, then column by column through
/// the last two rows with the same trick. It stops at the first placement
/// that cannot be made. The moves always replay legally from the board it
/// was given to the board it leaves; when it did not stop (`complete`),
/// every placed cell for which the target has a tile holds that tile, and
/// when it stopped, it did so at a position where every earlier cell is in
/// place and the next placement cannot be made (`stopped_at`).
pub fn greedy(board: &mut Board, target: &Board) -> (r: (Vec<Dir>, bool))
    requires
        old(board).wf(),
        target.cells@.len() == old(board).cells@.len(),
    ensures
        final(board).wf(),
        final(board).size == old(board).size,
        old(board)@.replay(r.0@) == Some(final(board)@),
        r.1 ==> forall|h: int, w: int|
            0 <= h < final(board).size && 0 <= w < final(board).size && peeled(final(board).size as int, h, w)
                && target.cells@[h * final(board).size + w] != 0 ==> #[trigger] final(board).cells@[h
                * final(board).size + w] == target.cells@[h * final(board).size + w],
        !r.1 ==> exists|h: int, w: int, fixed: Seq<bool>| stopped_at(*final(board), *target, h, w, fixed),
{
    let base = board.duplicate();
    let n = board.size;
    let nn = board.cells.len();
    let mut solution: Vec<Dir> = Vec::new();
    let mut fixed: Vec<bool> = Vec::new();
    let mut i: usize = 0;
    while i < nn
        invariant
            i <= nn,
            fixed@.len() == i,
            forall|q: int| 0 <= q < i ==> !#[trigger] fixed@[q],
        decreases nn - i,
    {
        fixed.push(false);
        i += 1;
    }
    proof {
        assert(base@.replay(solution@) == Some(board@));
        assert(nn == n * n);
    }
    if n < 2 {
        return (solution, true);
    }
    proof {
        assert forall|r: int, c: int| 0 <= r < n && 0 <= c < n implies #[trigger] fixed@[r * n + c] == (r < 0) by {
            lemma_index_facts(n as int, r, c, r, c);
        }
    }
    let mut h: usize = 0;
    while h < n - 2
        invariant
            base@ == old(board)@,
            base.size == n,
            placed(base, *board, *target, solution@, fixed@),
            board.size == n,
            n >= 2,
            nn == n * n,
            h <= n - 2,
            target.cells@.len() == nn,
            fixed@.len() == nn,
            forall|r: int, c: int|
                0 <= r < n && 0 <= c < n ==> #[trigger] fixed@[r * n + c] == (r < h),
        decreases n - h,
    {
        let mut w: usize = 0;
        while w < n - 2
            invariant
                base@ == old(board)@,
                base.size == n,
                placed(base, *board, *target, solution@, fixed@),
                board.size == n,
                n >= 2,
                nn == n * n,
                h < n - 2,
                w <= n - 2,
                target.cells@.len() == nn,
                fixed@.len() == nn,
                forall|r: int, c: int|
                    0 <= r < n && 0 <= c < n ==> #[trigger] fixed@[r * n + c] == (r < h || (r == h
                        && c < w)),
            decreases n - w,
        {
            let here = cell_index(n, h, w);
            let ghost f0 = fixed@;
            if !place_one(&base, board, target, here, &mut solution, &mut fixed) {
                proof {
                    assert(stopped_at(*board, *target, h as int, w as int, f0));
                }
                return (solution, false);
            }
            proof {
                assert forall|r: int, c: int|
                    0 <= r < n && 0 <= c < n implies #[trigger] fixed@[r * n + c] == (r < h || (r
                        == h && c < w + 1)) by {
                    lemma_index_facts(n as int, r, c, h as int, w as int);
                }
            }
            w += 1;
        }
        let here = cell_index(n, h, n - 2);
        let far = cell_index(n, h, n - 1);
        let aside = cell_index(n, h + 1, n - 2);
        proof {
            lemma_index_facts(n as int, h as int, (n - 2) as int, h as int, (n - 1) as int);
            lemma_index_facts(n as int, h as int, (n - 2) as int, (h + 1) as int, (n - 2) as int);
            lemma_index_facts(n as int, h as int, (n - 1) as int, (h + 1) as int, (n - 2) as int);
            assert(!fixed@[here as int]);
            assert(!fixed@[far as int]);
            assert(!fixed@[aside as int]);
            assert((h + 1) * n + (n - 2) == here + n) by (nonlinear_arith)
                requires
                    here == h * n + (n - 2),
            ;
            assert(here + n < n * n) by (nonlinear_arith)
                requires
                    here == h * n + (n - 2),
                    h < n - 2,
            ;
        }
        let ghost f0 = fixed@;
        if !place_two(&base, board, target, here, far, aside, Dir::Left, Dir::Down, &mut solution, &mut fixed) {
            proof {
                assert(far == here + 1);
                assert(stopped_at(*board, *target, h as int, (n - 2) as int, f0));
            }
            return (solution, false);
        }
        proof {
            assert forall|r: int, c: int|
                0 <= r < n && 0 <= c < n implies #[trigger] fixed@[r * n + c] == (r < h + 1) by {
                lemma_index_facts(n as int, r, c, h as int, (n - 2) as int);
                lemma_index_facts(n as int, r, c, h as int, (n - 1) as int);
                lemma_index_facts(n as int, r, c, h as int, c);
            }
        }
        h += 1;
    }
    let mut w: usize = 0;
    while w < n - 1
        invariant
            base@ == old(board)@,
            base.size == n,
            placed(base, *board, *target, solution@, fixed@),
            board.size == n,
            n >= 2,
            nn == n * n,
            w <= n - 1,
            target.cells@.len() == nn,
            fixed@.len() == nn,
            forall|r: int, c: int|
                0 <= r < n && 0 <= c < n ==> #[trigger] fixed@[r * n + c] == (r < n - 2 || c < w),
        decreases n - w,
    {
        let here = cell_index(n, n - 2, w);
        let far = cell_index(n, n - 1, w);
        let aside = cell_index(n, n - 2, w + 1);
        proof {
            lemma_index_facts(n as int, (n - 2) as int, w as int, (n - 1) as int, w as int);
            lemma_index_facts(n as int, (n - 2) as int, w as int, (n - 2) as int, (w + 1) as int);
            lemma_index_facts(n as int, (n - 1) as int, w as int, (n - 2) as int, (w + 1) as int);
            assert(!fixed@[here as int]);
            assert(!fixed@[far as int]);
            assert(!fixed@[aside as int]);
            assert(far == here + n) by (nonlinear_arith)
                requires
                    here == (n - 2) * n + w,
                    far == (n - 1) * n + w,
            ;
        }
        let ghost f0 = fixed@;
        if !place_two(&base, board, target, here, far, aside, Dir::Up, Dir::Right, &mut solution, &mut fixed) {
            proof {
                assert(stopped_at(*board, *target, (n - 2) as int, w as int, f0));
            }
            return (solution, false);
        }
        proof {
            assert forall|r: int, c: int|
                0 <= r < n && 0 <= c < n implies #[trigger] fixed@[r * n + c] == (r < n - 2 || c < w + 1) by {
                lemma_index_facts(n as int, r, c, (n - 2) as int, w as int);
                lemma_index_facts(n as int, r, c, (n - 1) as int, w as int);
            }
        }
        w += 1;
    }
    proof {
        assert forall|r: int, c: int|
            0 <= r < n && 0 <= c < n && peeled(n as int, r, c) && target.cells@[r * n + c] != 0 implies #[trigger] board.cells@[r
                * n + c] == target.cells@[r * n + c] by {
            lemma_index_facts(n as int, r, c, r, c);
            assert(fixed@[r * n + c]);
        }
    }
    (solution, true)
}

} // verus!
