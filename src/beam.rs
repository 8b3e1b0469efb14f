use crate::board::{lemma_after_wf, lemma_replay_concat, lemma_replay_push, Board, Dir, Grid};
use crate::random::{random_below, sort_pairs};
use crate::score::{score, score_spec};
use std::collections::HashMap;
use vstd::prelude::*;

verus! {

broadcast use vstd::std_specs::hash::group_hash_axioms;

/// Largest random amount added to a candidate's score to break ties.
pub const JITTER: usize = 1000;

/// A hash of a board's cells; equal cells give equal fingerprints.
pub open spec fn fingerprint_of(c: Seq<u8>) -> u64
    decreases c.len(),
{
    if c.len() == 0 {
        0
    } else {
        ((fingerprint_of(c.drop_last()) as int * 31 + c.last() as int) % 0x1_0000_0000_0000_0000int) as u64
    }
}

pub fn fingerprint(cells: &Vec<u8>) -> (r: u64)
    ensures
        r == fingerprint_of(cells@),
{
    let mut h: u64 = 0;
    let mut i: usize = 0;
    while i < cells.len()
        invariant
            i <= cells@.len(),
            h == fingerprint_of(cells@.take(i as int)),
        decreases cells.len() - i,
    {
        proof {
            assert(cells@.take(i + 1).drop_last() =~= cells@.take(i as int));
        }
        let x: u128 = (h as u128 * 31 + cells[i] as u128) % 0x1_0000_0000_0000_0000u128;
        h = x as u64;
        i += 1;
    }
    proof {
        assert(cells@.take(i as int) =~= cells@);
    }
    h
}

/// Whether two cell sequences are equal.
pub fn same_cells(a: &Vec<u8>, b: &Vec<u8>) -> (r: bool)
    ensures
        r == (a@ == b@),
{
    if a.len() != b.len() {
        return false;
    }
    let mut i: usize = 0;
    while i < a.len()
        invariant
            a@.len() == b@.len(),
            i <= a@.len(),
            forall|k: int| 0 <= k < i ==> a@[k] == b@[k],
        decreases a.len() - i,
    {
        if a[i] != b[i] {
            return false;
        }
        i += 1;
    }
    proof {
        assert(a@ =~= b@);
    }
    true
}

/// A board reached by the search: the record it was reached from, the move
/// that led here (none for the initial board) and the number of moves.
pub struct Record {
    pub board: Board,
    pub parent: usize,
    pub step: Option<Dir>,
    pub depth: usize,
}

/// Beam search over the boards reachable by legal moves. Every board is
/// recorded once, with the move that first reached it; each layer keeps the
/// `beam_width` best new boards (by score plus a small random jitter).
pub struct BeamSearch {
    pub records: Vec<Record>,
    pub index: HashMap<u64, Vec<usize>>,
    pub frontier: Vec<usize>,
    pub best: usize,
    pub best_score: u128,
    pub beam_width: usize,
    pub max_moves: usize,
    pub depth: usize,
}

/// The records are a tree of legal moves rooted at the first one.
#[verifier::opaque]
pub open spec fn records_tree(records: Seq<Record>) -> bool {
    &&& records.len() >= 1
    &&& records[0].step is None
    &&& records[0].depth == 0
    &&& forall|i: int|
        0 <= i < records.len() ==> (#[trigger] records[i]).board.wf() && records[i].board.size
            == records[0].board.size
    &&& forall|i: int|
        1 <= i < records.len() ==> {
            &&& (#[trigger] records[i]).parent < i
            &&& records[i].step is Some
            &&& records[records[i].parent as int].board@.after(records[i].step.unwrap()) == Some(
                records[i].board@,
            )
            &&& records[i].depth == records[records[i].parent as int].depth + 1
        }
}

/// No two records hold the same board.
#[verifier::opaque]
pub open spec fn records_distinct(records: Seq<Record>) -> bool {
    forall|i: int, j: int|
        #![trigger records[i], records[j]]
        0 <= i < records.len() && 0 <= j < records.len() && i != j ==> records[i].board.cells@
            != records[j].board.cells@
}

/// Every record is listed under its board's fingerprint, and the lists name
/// records only.
#[verifier::opaque]
pub open spec fn index_ok(records: Seq<Record>, index: Map<u64, Vec<usize>>) -> bool {
    &&& forall|i: int|
        0 <= i < records.len() ==> index.contains_key(
            fingerprint_of((#[trigger] records[i]).board.cells@),
        ) && exists|k: int|
            0 <= k < index[fingerprint_of(records[i].board.cells@)]@.len() && #[trigger] index[fingerprint_of(
                records[i].board.cells@,
            )]@[k] == i
    &&& forall|key: u64, k: int|
        #![trigger index[key]@[k]]
        index.contains_key(key) && 0 <= k < index[key]@.len() ==> index[key]@[k] < records.len()
}

/// Some record holds a board with cells `c`.
pub open spec fn recorded(recs: Seq<Record>, c: Seq<u8>) -> bool {
    exists|i: int| 0 <= i < recs.len() && #[trigger] recs[i].board.cells@ == c
}

/// The board that move `d` leads to from `g`, if the move is legal, is recorded.
pub open spec fn child_recorded(recs: Seq<Record>, g: Grid, d: Dir) -> bool {
    match g.after(d) {
        Some(h) => recorded(recs, h.cells),
        None => true,
    }
}

/// Records only ever get appended, so what was recorded stays recorded.
proof fn lemma_recorded_grow(a: Seq<Record>, b: Seq<Record>, g: Grid, d: Dir)
    requires
        a.len() <= b.len(),
        forall|i: int| 0 <= i < a.len() ==> #[trigger] b[i] == a[i],
        child_recorded(a, g, d),
    ensures
        child_recorded(b, g, d),
{
    if let Some(h) = g.after(d) {
        let i = choose|i: int| 0 <= i < a.len() && #[trigger] a[i].board.cells@ == h.cells;
        assert(b[i] == a[i]);
    }
}

/// Every entry of `ids` is the record number of some candidate.
pub open spec fn ids_from(ids: Seq<usize>, cands: Seq<(u128, usize)>) -> bool {
    forall|k: int| 0 <= k < ids.len() ==> cand_ids(cands).contains(#[trigger] ids[k])
}

/// The record numbers of the candidates.
pub open spec fn cand_ids(cands: Seq<(u128, usize)>) -> Seq<usize> {
    Seq::new(cands.len(), |j: int| cands[j].1)
}

/// Cells of the board reached after the first `k` moves of `path` from `g`.
pub open spec fn prefix_cells(g: Grid, path: Seq<Dir>, k: int) -> Seq<u8> {
    g.replay(path.take(k)).unwrap().cells
}

/// The order in which the moves of a board are tried.
pub open spec fn expand_dir(j: int) -> Dir {
    if j == 0 {
        Dir::Up
    } else if j == 1 {
        Dir::Down
    } else if j == 2 {
        Dir::Left
    } else {
        Dir::Right
    }
}

fn expand_dir_at(j: usize) -> (d: Dir)
    ensures
        d == expand_dir(j as int),
{
    if j == 0 {
        Dir::Up
    } else if j == 1 {
        Dir::Down
    } else if j == 2 {
        Dir::Left
    } else {
        Dir::Right
    }
}

impl BeamSearch {
    pub open spec fn inv(&self) -> bool {
        let r = self.records@;
        &&& records_tree(r)
        &&& records_distinct(r)
        &&& index_ok(r, self.index@)
        &&& self.depth <= self.max_moves
        &&& forall|i: int| 0 <= i < r.len() ==> (#[trigger] r[i]).depth <= self.max_moves
        &&& forall|k: int|
            0 <= k < self.frontier@.len() ==> #[trigger] self.frontier@[k] < r.len()
                && r[self.frontier@[k] as int].depth == self.depth
        &&& self.best < r.len()
        &&& forall|i: int|
            0 <= i < r.len() ==> score_spec((#[trigger] r[i]).board@, r[i].depth as int, self.max_moves as int)
                <= self.best_score
        &&& self.best_score == score_spec(
            r[self.best as int].board@,
            r[self.best as int].depth as int,
            self.max_moves as int,
        )
    }

    /// The initial board, from which every recorded board is reached.
    pub open spec fn root(&self) -> Grid {
        self.records@[0].board@
    }

    /// Starts from `init` alone.
    pub fn new(init: &Board, beam_width: usize, max_moves: usize) -> (r: BeamSearch)
        requires
            init.wf(),
        ensures
            r.inv(),
            r.root() == init@,
            r.depth == 0,
            r.max_moves == max_moves,
            r.beam_width == beam_width,
    {
        proof {
            reveal(records_tree);
        reveal(records_distinct);
        reveal(index_ok);
        }
        let s = score(init, 0, max_moves);
        let key = fingerprint(&init.cells);
        let mut records: Vec<Record> = Vec::new();
        records.push(Record { board: init.duplicate(), parent: 0, step: None, depth: 0 });
        let mut index: HashMap<u64, Vec<usize>> = HashMap::new();
        let mut bucket: Vec<usize> = Vec::new();
        bucket.push(0);
        index.insert(key, bucket);
        let mut frontier: Vec<usize> = Vec::new();
        frontier.push(0);
        let r = BeamSearch {
            records,
            index,
            frontier,
            best: 0,
            best_score: s,
            beam_width,
            max_moves,
            depth: 0,
        };
        proof {
            reveal(records_tree);
        reveal(records_distinct);
        reveal(index_ok);
            let rs = r.records@;
            assert(index_ok(rs, r.index@)) by {
                assert(r.index@[fingerprint_of(rs[0].board.cells@)]@[0] == 0);
            }
        }
        r
    }

    /// The record holding a board with the same cells as `b`, if any.
    pub fn find(&self, b: &Board) -> (r: Option<usize>)
        requires
            self.inv(),
        ensures
            r matches Some(i) ==> i < self.records@.len() && self.records@[i as int].board.cells@
                == b.cells@,
            r is None ==> forall|i: int|
                0 <= i < self.records@.len() ==> #[trigger] self.records@[i].board.cells@ != b.cells@,
    {
        proof {
            reveal(index_ok);
        }
        let key = fingerprint(&b.cells);
        match self.index.get(&key) {
            None => {
                proof {
                    assert forall|i: int|
                        0 <= i < self.records@.len() implies #[trigger] self.records@[i].board.cells@
                            != b.cells@ by {
                        if self.records@[i].board.cells@ == b.cells@ {
                            assert(self.index@.contains_key(
                                fingerprint_of(self.records@[i].board.cells@),
                            ));
                        }
                    }
                }
                None
            },
            Some(bucket) => {
                let mut k: usize = 0;
                while k < bucket.len()
                    invariant
                        self.inv(),
                        self.index@.contains_key(key),
                        *bucket == self.index@[key],
                        key == fingerprint_of(b.cells@),
                        k <= bucket@.len(),
                        forall|m: int|
                            0 <= m < k ==> self.records@[#[trigger] bucket@[m] as int].board.cells@
                                != b.cells@,
                    decreases bucket.len() - k,
                {
                    proof {
                        reveal(index_ok);
                    }
                    let id = bucket[k];
                    if same_cells(&self.records[id].board.cells, &b.cells) {
                        return Some(id);
                    }
                    k += 1;
                }
                proof {
                    reveal(index_ok);
                    assert forall|i: int|
                        0 <= i < self.records@.len() implies #[trigger] self.records@[i].board.cells@
                            != b.cells@ by {
                        if self.records@[i].board.cells@ == b.cells@ {
                            let fk = fingerprint_of(self.records@[i].board.cells@);
                            let m = choose|m: int|
                                0 <= m < self.index@[fk]@.len() && #[trigger] self.index@[fk]@[m] == i;
                            assert(bucket@[m] == i);
                        }
                    }
                }
                None
            },
        }
    }

    /// Records `board`, reached from record `parent` by move `d`, under a fresh
    /// number, which it returns.
    #[verifier::rlimit(50)]
    fn add(&mut self, board: Board, parent: usize, d: Dir) -> (id: usize)
        requires
            old(self).inv(),
            parent < old(self).records@.len(),
            old(self).records@[parent as int].depth == old(self).depth,
            old(self).depth < old(self).max_moves,
            old(self).records@[parent as int].board@.after(d) == Some(board@),
            board.wf(),
            board.size == old(self).records@[0].board.size,
            forall|i: int|
                0 <= i < old(self).records@.len() ==> #[trigger] old(self).records@[i].board.cells@
                    != board.cells@,
        ensures
            id == old(self).records@.len(),
            final(self).records@ == old(self).records@.push(
                Record { board, parent, step: Some(d), depth: (old(self).depth + 1) as usize },
            ),
            final(self).frontier == old(self).frontier,
            final(self).best == old(self).best,
            final(self).best_score == old(self).best_score,
            final(self).depth == old(self).depth,
            final(self).max_moves == old(self).max_moves,
            final(self).beam_width == old(self).beam_width,
            records_tree(final(self).records@),
            records_distinct(final(self).records@),
            index_ok(final(self).records@, final(self).index@),
    {
        let id = self.records.len();
        let key = fingerprint(&board.cells);
        let ghost old_index = self.index@;
        let mut bucket: Vec<usize> = Vec::new();
        match self.index.get(&key) {
            Some(old_bucket) => {
                let mut k: usize = 0;
                while k < old_bucket.len()
                    invariant
                        k <= old_bucket@.len(),
                        bucket@ == old_bucket@.take(k as int),
                    decreases old_bucket.len() - k,
                {
                    bucket.push(old_bucket[k]);
                    k += 1;
                    proof {
                        assert(bucket@ =~= old_bucket@.take(k as int));
                    }
                }
                proof {
                    assert(old_bucket@.take(k as int) =~= old_bucket@);
                }
            },
            None => {},
        }
        let ghost prev = bucket@;
        bucket.push(id);
        self.index.insert(key, bucket);
        let depth = self.depth + 1;
        self.records.push(Record { board, parent, step: Some(d), depth });
        proof {
            reveal(records_tree);
        reveal(records_distinct);
        reveal(index_ok);
            let rs = self.records@;
            let ix = self.index@;
            assert(old_index.contains_key(key) ==> prev == old_index[key]@);
            assert(!old_index.contains_key(key) ==> prev.len() == 0);
            assert forall|i: int| 0 <= i < rs.len() implies ix.contains_key(
                fingerprint_of((#[trigger] rs[i]).board.cells@),
            ) && exists|k: int|
                0 <= k < ix[fingerprint_of(rs[i].board.cells@)]@.len() && #[trigger] ix[fingerprint_of(
                    rs[i].board.cells@,
                )]@[k] == i by {
                let fk = fingerprint_of(rs[i].board.cells@);
                if i == id {
                    assert(ix[fk]@[prev.len() as int] == i);
                } else {
                    assert(rs[i] == old(self).records@[i]);
                    let m = choose|m: int|
                        0 <= m < old_index[fk]@.len() && #[trigger] old_index[fk]@[m] == i;
                    if fk == key {
                        assert(ix[fk]@[m] == i);
                    } else {
                        assert(ix[fk] == old_index[fk]);
                    }
                }
            }
            assert forall|key2: u64, k: int|
                #![trigger ix[key2]@[k]]
                ix.contains_key(key2) && 0 <= k < ix[key2]@.len() implies ix[key2]@[k] < rs.len() by {
                if key2 == key {
                    if k < prev.len() {
                        assert(old_index[key]@[k] < old(self).records@.len());
                    }
                } else {
                    assert(ix[key2] == old_index[key2]);
                }
            }
            assert forall|i: int, j: int|
                #![trigger rs[i], rs[j]]
                0 <= i < rs.len() && 0 <= j < rs.len() && i != j implies rs[i].board.cells@
                    != rs[j].board.cells@ by {
                if i != id && j != id {
                    assert(rs[i] == old(self).records@[i]);
                    assert(rs[j] == old(self).records@[j]);
                } else if i == id {
                    assert(old(self).records@[j].board.cells@ != board.cells@);
                } else {
                    assert(old(self).records@[i].board.cells@ != board.cells@);
                }
            }
            assert forall|i: int| 1 <= i < rs.len() implies {
                &&& (#[trigger] rs[i]).parent < i
                &&& rs[i].step is Some
                &&& rs[rs[i].parent as int].board@.after(rs[i].step.unwrap()) == Some(rs[i].board@)
                &&& rs[i].depth == rs[rs[i].parent as int].depth + 1
            } by {
                if i != id {
                    assert(rs[i] == old(self).records@[i]);
                }
            }
            assert forall|i: int|
                0 <= i < rs.len() implies (#[trigger] rs[i]).board.wf() && rs[i].board.size
                    == rs[0].board.size by {
                if i != id {
                    assert(rs[i] == old(self).records@[i]);
                }
            }
        }
        id
    }

    /// Candidates of the next layer name records one move deeper than the
    /// current layer.
    pub open spec fn cands_ok(&self, cands: Seq<(u128, usize)>) -> bool {
        forall|k: int|
            0 <= k < cands.len() ==> #[trigger] cands[k].1 < self.records@.len()
                && self.records@[cands[k].1 as int].depth == self.depth + 1
    }

    /// Tries move `d` from record `id`; a board not yet recorded is recorded,
    /// scored, and put among the candidates with a random jitter.
    fn visit(&mut self, rng: &mut rand_pcg::Mcg128Xsl64, id: usize, d: Dir, cands: &mut Vec<(u128, usize)>)
        requires
            old(self).inv(),
            old(self).depth < old(self).max_moves,
            id < old(self).records@.len(),
            old(self).records@[id as int].depth == old(self).depth,
            old(self).cands_ok(old(cands)@),
        ensures
            final(self).inv(),
            final(self).root() == old(self).root(),
            final(self).depth == old(self).depth,
            final(self).max_moves == old(self).max_moves,
            final(self).beam_width == old(self).beam_width,
            final(self).frontier == old(self).frontier,
            final(self).best_score >= old(self).best_score,
            final(self).records@.len() >= old(self).records@.len(),
            forall|i: int| 0 <= i < old(self).records@.len() ==> #[trigger] final(self).records@[i] == old(self).records@[i],
            final(self).cands_ok(final(cands)@),
            child_recorded(final(self).records@, old(self).records@[id as int].board@, d),
            final(cands)@.len() - old(cands)@.len() == final(self).records@.len() - old(self).records@.len(),
            final(cands)@.len() <= old(cands)@.len() + 1,
            forall|k: int| 0 <= k < old(cands)@.len() ==> #[trigger] final(cands)@[k] == old(cands)@[k],
            final(cands)@.len() > old(cands)@.len() ==> final(cands)@[old(cands)@.len() as int].1
                == old(self).records@.len(),
    {
        assert(self.records@[id as int].board.wf() && self.records@[id as int].board.size
            == self.records@[0].board.size) by {
            reveal(records_tree);
        }
        let mut child = self.records[id].board.duplicate();
        proof {
            lemma_after_wf(self.records@[id as int].board@, d);
        }
        if !child.move_empty(d) {
            return;
        }
        match self.find(&child) {
            Some(i) => {
                proof {
                    assert(self.records@[i as int].board.cells@ == child@.cells);
                }
                return;
            },
            None => {},
        }
        let depth = self.depth + 1;
        let s = score(&child, depth, self.max_moves);
        let jitter = random_below(rng, JITTER);
        let ghost before = self.records@;
        let ghost child_cells = child.cells@;
        let new_id = self.add(child, id, d);
        proof {
            assert(self.records@[new_id as int].board.cells@ == child_cells);
            assert(self.records@[new_id as int].board@ == child@);
            assert(self.records@[new_id as int].depth == depth);
        }
        if s > self.best_score {
            self.best = new_id;
            self.best_score = s;
        }
        proof {
            assert(self.max_moves <= 0xffff_ffff_ffff_ffffu128);
        }
        cands.push((s + jitter as u128, new_id));
        proof {
            let rs = self.records@;
            assert forall|i: int| 0 <= i < rs.len() implies (#[trigger] rs[i]).depth <= self.max_moves by {
                if i < before.len() {
                    assert(rs[i] == before[i]);
                }
            }
            assert forall|i: int| 0 <= i < before.len() implies #[trigger] rs[i] == before[i] by {}
            assert forall|k: int|
                0 <= k < self.frontier@.len() implies #[trigger] self.frontier@[k] < rs.len()
                    && rs[self.frontier@[k] as int].depth == self.depth by {
                assert(rs[self.frontier@[k] as int] == before[self.frontier@[k] as int]);
            }
            assert forall|k: int|
                0 <= k < cands@.len() implies #[trigger] cands@[k].1 < rs.len()
                    && rs[cands@[k].1 as int].depth == self.depth + 1 by {
                if k < cands@.len() - 1 {
                    assert(rs[cands@[k].1 as int] == before[cands@[k].1 as int]);
                }
            }
            if self.best != new_id {
                assert(rs[self.best as int] == before[self.best as int]);
            }
            assert forall|i: int|
                0 <= i < rs.len() implies score_spec((#[trigger] rs[i]).board@, rs[i].depth as int, self.max_moves as int)
                    <= self.best_score by {
                if i < before.len() {
                    assert(rs[i] == before[i]);
                }
            }
        }
    }

    /// Expands every board of the current layer by the four moves, in the
    /// order up, down, left, right. A board already recorded is skipped;
    /// each new one is recorded and scored, and the best of them by score
    /// plus jitter, at most `beam_width`, form the next layer. Nothing happens
    /// once the move budget is spent. Returns whether the next layer has any
    /// board.
    pub fn expand_layer(&mut self, rng: &mut rand_pcg::Mcg128Xsl64) -> (more: bool)
        requires
            old(self).inv(),
        ensures
            final(self).inv(),
            final(self).root() == old(self).root(),
            final(self).max_moves == old(self).max_moves,
            final(self).best_score >= old(self).best_score,
            final(self).beam_width == old(self).beam_width,
            final(self).records@.len() >= old(self).records@.len(),
            forall|i: int|
                0 <= i < old(self).records@.len() ==> #[trigger] final(self).records@[i] == old(self).records@[i],
            old(self).depth < old(self).max_moves ==> final(self).depth == old(self).depth + 1,
            old(self).depth < old(self).max_moves ==> forall|k: int, d: Dir|
                0 <= k < old(self).frontier@.len() ==> #[trigger] child_recorded(
                    final(self).records@,
                    old(self).records@[old(self).frontier@[k] as int].board@,
                    d,
                ),
            old(self).depth < old(self).max_moves ==> final(self).frontier@.len() == (if final(self).records@.len()
                - old(self).records@.len() < old(self).beam_width {
                final(self).records@.len() - old(self).records@.len()
            } else {
                old(self).beam_width as int
            }),
            forall|k: int|
                0 <= k < final(self).frontier@.len() ==> old(self).records@.len() <= #[trigger] final(self).frontier@[k]
                    < final(self).records@.len(),
            old(self).depth >= old(self).max_moves ==> final(self).depth == old(self).depth
                && final(self).records@ == old(self).records@,
            more <==> final(self).frontier@.len() > 0,
    {
        if self.depth >= self.max_moves {
            self.frontier = Vec::new();
            return false;
        }
        let mut cands: Vec<(u128, usize)> = Vec::new();
        let mut f: usize = 0;
        let ghost root = self.root();
        let ghost best0 = self.best_score;
        let ghost fr = self.frontier@;
        let ghost mm = self.max_moves;
        let ghost rec0 = self.records@;
        let ghost d0 = self.depth;
        let ghost bw = self.beam_width;
        while f < self.frontier.len()
            invariant
                self.frontier@ == fr,
                self.depth == d0,
                self.beam_width == bw,
                self.records@.len() >= rec0.len(),
                forall|i: int| 0 <= i < rec0.len() ==> #[trigger] self.records@[i] == rec0[i],
                self.max_moves == mm,
                self.inv(),
                self.root() == root,
                self.depth < self.max_moves,
                self.best_score >= best0,
                self.cands_ok(cands@),
                forall|k: int| 0 <= k < fr.len() ==> #[trigger] fr[k] < rec0.len(),
                cands@.len() == self.records@.len() - rec0.len(),
                forall|k: int| 0 <= k < cands@.len() ==> #[trigger] cands@[k].1 >= rec0.len(),
                f <= fr.len(),
                forall|k: int, d: Dir|
                    0 <= k < f ==> #[trigger] child_recorded(self.records@, rec0[fr[k] as int].board@, d),
            decreases self.frontier.len() - f,
        {
            let id = self.frontier[f];
            let mut di: usize = 0;
            while di < 4
                invariant
                    self.inv(),
                    self.root() == root,
                    self.depth < self.max_moves,
                    self.best_score >= best0,
                    id < self.records@.len(),
                    self.records@[id as int].depth == self.depth,
                    self.cands_ok(cands@),
                    f < self.frontier@.len(),
                    id == fr[f as int],
                    self.frontier@ == fr,
                    self.max_moves == mm,
                    self.depth == d0,
                    self.beam_width == bw,
                    self.records@.len() >= rec0.len(),
                    forall|i: int| 0 <= i < rec0.len() ==> #[trigger] self.records@[i] == rec0[i],
                    forall|k: int| 0 <= k < fr.len() ==> #[trigger] fr[k] < rec0.len(),
                    cands@.len() == self.records@.len() - rec0.len(),
                    forall|k: int| 0 <= k < cands@.len() ==> #[trigger] cands@[k].1 >= rec0.len(),
                    di <= 4,
                    forall|k: int, d: Dir|
                        0 <= k < f ==> #[trigger] child_recorded(self.records@, rec0[fr[k] as int].board@, d),
                    forall|j: int|
                        0 <= j < di ==> child_recorded(self.records@, rec0[id as int].board@, #[trigger] expand_dir(j)),
                decreases 4 - di,
            {
                let ghost before = self.records@;
                let ghost cb = cands@;
                let d = expand_dir_at(di);
                proof {
                    assert(self.records@[id as int] == rec0[id as int]);
                }
                self.visit(rng, id, d, &mut cands);
                proof {
                    assert(self.records@[id as int] == before[id as int]);
                    assert forall|i: int| 0 <= i < rec0.len() implies #[trigger] self.records@[i] == rec0[i] by {
                        assert(self.records@[i] == before[i]);
                    }
                    assert forall|k: int, e: Dir|
                        0 <= k < f implies #[trigger] child_recorded(self.records@, rec0[fr[k] as int].board@, e) by {
                        lemma_recorded_grow(before, self.records@, rec0[fr[k] as int].board@, e);
                    }
                    assert forall|j: int|
                        0 <= j < di + 1 implies child_recorded(self.records@, rec0[id as int].board@, #[trigger] expand_dir(j)) by {
                        if j < di {
                            lemma_recorded_grow(before, self.records@, rec0[id as int].board@, expand_dir(j));
                        }
                    }
                    assert forall|k: int| 0 <= k < cands@.len() implies #[trigger] cands@[k].1 >= rec0.len() by {
                        if k < cb.len() {
                            assert(cands@[k] == cb[k]);
                        }
                    }
                }
                di += 1;
            }
            proof {
                assert forall|k: int, e: Dir|
                    0 <= k < f + 1 implies #[trigger] child_recorded(self.records@, rec0[fr[k] as int].board@, e) by {
                    if k == f {
                        let j: int = if e == Dir::Up {
                            0
                        } else if e == Dir::Down {
                            1
                        } else if e == Dir::Left {
                            2
                        } else {
                            3
                        };
                        assert(expand_dir(j) == e);
                    }
                }
            }
            f += 1;
        }
        let ghost cands_all = cands@;
        let more = self.select(cands);
        proof {
            assert forall|k: int|
                0 <= k < self.frontier@.len() implies rec0.len() <= #[trigger] self.frontier@[k] < self.records@.len() by {
                assert(cand_ids(cands_all).contains(self.frontier@[k]));
                let j = choose|j: int| 0 <= j < cand_ids(cands_all).len() && cand_ids(cands_all)[j] == self.frontier@[k];
                assert(cands_all[j].1 == self.frontier@[k]);
            }
        }
        more
    }

    /// Keeps the best `beam_width` candidates as the next layer.
    fn select(&mut self, cands: Vec<(u128, usize)>) -> (more: bool)
        requires
            old(self).inv(),
            old(self).depth < old(self).max_moves,
            old(self).cands_ok(cands@),
        ensures
            final(self).inv(),
            final(self).root() == old(self).root(),
            final(self).max_moves == old(self).max_moves,
            final(self).best_score == old(self).best_score,
            final(self).records == old(self).records,
            final(self).beam_width == old(self).beam_width,
            final(self).depth == old(self).depth + 1,
            final(self).frontier@.len() == (if cands@.len() < old(self).beam_width {
                cands@.len() as int
            } else {
                old(self).beam_width as int
            }),
            ids_from(final(self).frontier@, cands@),
            more <==> final(self).frontier@.len() > 0,
    {
        let ghost all = cands@;
        let (kept, _dropped) = select_top(cands, self.beam_width);
        let mut next: Vec<usize> = Vec::new();
        let mut k: usize = 0;
        while k < kept.len()
            invariant
                self.inv(),
                self.depth < self.max_moves,
                k <= kept@.len(),
                kept@.len() <= self.beam_width,
                self.records == old(self).records,
                self.beam_width == old(self).beam_width,
                self.depth == old(self).depth,
                forall|x: (u128, usize)| #[trigger] kept@.contains(x) ==> all.contains(x),
                self.cands_ok(all),
                next@.len() == k,
                forall|i: int|
                    0 <= i < next@.len() ==> #[trigger] next@[i] < self.records@.len()
                        && self.records@[next@[i] as int].depth == self.depth + 1,
                ids_from(next@, all),
                kept@.len() == (if all.len() < old(self).beam_width {
                    all.len() as int
                } else {
                    old(self).beam_width as int
                }),
            decreases kept.len() - k,
        {
            let x = kept[k];
            let ghost prev = next@;
            proof {
                assert(kept@.contains(x));
            }
            let ghost j0 = choose|j: int| 0 <= j < all.len() && all[j] == x;
            proof {
                assert(all[j0].1 == x.1);
            }
            next.push(x.1);
            proof {
                assert forall|i: int| 0 <= i < next@.len() implies cand_ids(all).contains(#[trigger] next@[i]) by {
                    if i < prev.len() {
                        assert(next@[i] == prev[i]);
                    } else {
                        assert(cand_ids(all)[j0] == next@[i]);
                    }
                }
            }
            k += 1;
        }
        self.frontier = next;
        self.depth = self.depth + 1;
        self.frontier.len() > 0
    }

    /// The moves that lead from the initial board to record `id`.
    pub fn path_to(&self, id: usize) -> (r: Vec<Dir>)
        requires
            self.inv(),
            id < self.records@.len(),
        ensures
            self.root().replay(r@) == Some(self.records@[id as int].board@),
            r@.len() == self.records@[id as int].depth,
            forall|k: int| 0 <= k <= r@.len() ==> #[trigger] self.root().replay(r@.take(k)) is Some,
            forall|a: int, b: int|
                0 <= a < b <= r@.len() ==> #[trigger] prefix_cells(self.root(), r@, a) != #[trigger] prefix_cells(
                    self.root(),
                    r@,
                    b,
                ),
    {
        let ghost target = self.records@[id as int].board@;
        let mut back: Vec<Dir> = Vec::new();
        let ghost mut suffix: Seq<Dir> = Seq::empty();
        let ghost mut chain: Seq<int> = seq![id as int];
        let mut cur = id;
        proof {
            assert(suffix.take(0) =~= Seq::<Dir>::empty());
        }
        while cur != 0
            invariant
                chain.len() == suffix.len() + 1,
                chain[0] == cur,
                forall|a: int| 0 <= a < chain.len() ==> 0 <= #[trigger] chain[a] < self.records@.len(),
                forall|a: int, b: int| 0 <= a < b < chain.len() ==> #[trigger] chain[a] < #[trigger] chain[b],
                forall|a: int|
                    0 <= a <= suffix.len() ==> #[trigger] self.records@[cur as int].board@.replay(suffix.take(a))
                        == Some(self.records@[chain[a]].board@),
                self.inv(),
                cur < self.records@.len(),
                self.records@[cur as int].board@.replay(suffix) == Some(target),
                suffix.len() + self.records@[cur as int].depth == self.records@[id as int].depth,
                back@.len() == suffix.len(),
                forall|i: int| 0 <= i < back@.len() ==> #[trigger] back@[i] == suffix[suffix.len() - 1 - i],
            decreases cur,
        {
            assert({
                let r = self.records@[cur as int];
                &&& r.parent < cur
                &&& r.step is Some
                &&& self.records@[r.parent as int].board@.after(r.step.unwrap()) == Some(r.board@)
                &&& r.depth == self.records@[r.parent as int].depth + 1
            }) by {
                reveal(records_tree);
            }
            let rec = &self.records[cur];
            let d = rec.step.unwrap();
            let p = rec.parent;
            proof {
                let g = self.records@[p as int].board@;
                lemma_replay_concat(g, seq![d], suffix);
                lemma_replay_push(g, Seq::<Dir>::empty(), d);
                assert(Seq::<Dir>::empty().push(d) =~= seq![d]);
                let old_suffix = suffix;
                let old_chain = chain;
                let c = cur as int;
                suffix = seq![d] + suffix;
                chain = seq![p as int] + chain;
                assert forall|a: int|
                    0 <= a <= suffix.len() implies #[trigger] g.replay(suffix.take(a)) == Some(
                        self.records@[chain[a]].board@,
                    ) by {
                    if a == 0 {
                        assert(suffix.take(0) =~= Seq::<Dir>::empty());
                    } else {
                        assert(suffix.take(a) =~= seq![d] + old_suffix.take(a - 1));
                        lemma_replay_concat(g, seq![d], old_suffix.take(a - 1));
                        assert(self.records@[c].board@.replay(old_suffix.take(a - 1)) == Some(
                            self.records@[old_chain[a - 1]].board@,
                        ));
                        assert(chain[a] == old_chain[a - 1]);
                    }
                }
                assert forall|a: int, b: int| 0 <= a < b < chain.len() implies #[trigger] chain[a] < #[trigger] chain[b] by {
                    if a == 0 {
                        assert(old_chain[0] <= old_chain[b - 1]) by {
                            if b - 1 > 0 {
                                assert(old_chain[0] < old_chain[b - 1]);
                            }
                        }
                    } else {
                        assert(old_chain[a - 1] < old_chain[b - 1]);
                    }
                }
                assert forall|a: int| 0 <= a < chain.len() implies 0 <= #[trigger] chain[a] < self.records@.len() by {
                    if a > 0 {
                        assert(chain[a] == old_chain[a - 1]);
                    }
                }
            }
            back.push(d);
            cur = p;
        }
        assert(self.records@[0].depth == 0) by {
            reveal(records_tree);
        }
        let mut path: Vec<Dir> = Vec::new();
        let mut j: usize = 0;
        while j < back.len()
            invariant
                j <= back@.len(),
                back@.len() == suffix.len(),
                forall|i: int| 0 <= i < back@.len() ==> #[trigger] back@[i] == suffix[suffix.len() - 1 - i],
                path@ == suffix.take(j as int),
            decreases back.len() - j,
        {
            path.push(back[back.len() - 1 - j]);
            j += 1;
            proof {
                assert(path@ =~= suffix.take(j as int));
            }
        }
        proof {
            assert(path@ =~= suffix);
            reveal(records_distinct);
            assert forall|k: int| 0 <= k <= path@.len() implies #[trigger] self.root().replay(path@.take(k)) is Some by {
                assert(self.records@[0].board@.replay(suffix.take(k)) == Some(self.records@[chain[k]].board@));
            }
            assert forall|a: int, b: int|
                0 <= a < b <= path@.len() implies #[trigger] prefix_cells(self.root(), path@, a) != #[trigger] prefix_cells(
                    self.root(),
                    path@,
                    b,
                ) by {
                assert(self.records@[0].board@.replay(suffix.take(a)) == Some(self.records@[chain[a]].board@));
                assert(self.records@[0].board@.replay(suffix.take(b)) == Some(self.records@[chain[b]].board@));
                assert(chain[a] < chain[b]);
                let ra = self.records@[chain[a]];
                let rb = self.records@[chain[b]];
                assert(ra.board.cells@ != rb.board.cells@);
            }
        }
        path
    }

    /// The moves that lead from the initial board to the best board found.
    pub fn best_moves(&self) -> (r: Vec<Dir>)
        requires
            self.inv(),
        ensures
            self.root().replay(r@) == Some(self.records@[self.best as int].board@),
            r@.len() <= self.max_moves,
            forall|a: int, b: int|
                0 <= a < b <= r@.len() ==> #[trigger] prefix_cells(self.root(), r@, a) != #[trigger] prefix_cells(
                    self.root(),
                    r@,
                    b,
                ),
    {
        self.path_to(self.best)
    }
}

/// No board is recorded twice: two records hold different cells.
pub proof fn lemma_records_distinct(search: &BeamSearch, i: int, j: int)
    requires
        search.inv(),
        0 <= i < search.records@.len(),
        0 <= j < search.records@.len(),
        i != j,
    ensures
        search.records@[i].board.cells@ != search.records@[j].board.cells@,
{
    reveal(records_distinct);
}

/// Each record but the first is reached from an earlier one by one legal move.
pub proof fn lemma_record_parent(search: &BeamSearch, i: int)
    requires
        search.inv(),
        1 <= i < search.records@.len(),
    ensures
        search.records@[i].parent < i,
        search.records@[i].step matches Some(d) && search.records@[search.records@[i].parent as int].board@.after(d)
            == Some(search.records@[i].board@),
{
    reveal(records_tree);
}

/// Splits candidates into the `width` with the highest first components (all
/// of them when there are fewer) and the rest: together they are the
/// candidates, and no kept one ranks below a dropped one.
pub fn select_top(cands: Vec<(u128, usize)>, width: usize) -> (r: (Vec<(u128, usize)>, Vec<(u128, usize)>))
    ensures
        r.0@.len() == if cands@.len() < width {
            cands@.len()
        } else {
            width as nat
        },
        r.0@.to_multiset().add(r.1@.to_multiset()) == cands@.to_multiset(),
        forall|i: int, j: int|
            0 <= i < r.0@.len() && 0 <= j < r.1@.len() ==> #[trigger] r.1@[j].0 <= #[trigger] r.0@[i].0,
        forall|x: (u128, usize)| #[trigger] r.0@.contains(x) ==> cands@.contains(x),
{
    let mut sorted = cands;
    let ghost orig = sorted@;
    sort_pairs(&mut sorted);
    proof {
        vstd::seq_lib::to_multiset_len(orig);
        vstd::seq_lib::to_multiset_len(sorted@);
    }
    let len = sorted.len();
    let cut = if len < width {
        0
    } else {
        len - width
    };
    let mut dropped: Vec<(u128, usize)> = Vec::new();
    let mut kept: Vec<(u128, usize)> = Vec::new();
    let mut i: usize = 0;
    while i < len
        invariant
            len == sorted@.len(),
            cut <= len,
            i <= len,
            i <= cut ==> dropped@ == sorted@.take(i as int) && kept@.len() == 0,
            i > cut ==> dropped@ == sorted@.take(cut as int) && kept@ == sorted@.subrange(cut as int, i as int),
        decreases len - i,
    {
        if i < cut {
            dropped.push(sorted[i]);
        } else {
            kept.push(sorted[i]);
        }
        i += 1;
        proof {
            if i <= cut {
                assert(dropped@ =~= sorted@.take(i as int));
            } else if i == cut + 1 {
                assert(kept@ =~= sorted@.subrange(cut as int, i as int));
                assert(dropped@ =~= sorted@.take(cut as int));
            } else {
                assert(kept@ =~= sorted@.subrange(cut as int, i as int));
            }
        }
    }
    proof {
        if len == cut {
            assert(kept@ =~= sorted@.subrange(cut as int, len as int));
        }
        assert(kept@ =~= sorted@.subrange(cut as int, len as int));
        assert(dropped@ =~= sorted@.take(cut as int));
        assert(sorted@ =~= dropped@ + kept@);
        vstd::seq_lib::lemma_multiset_commutative(dropped@, kept@);
        assert forall|a: int, b: int|
            0 <= a < kept@.len() && 0 <= b < dropped@.len() implies #[trigger] dropped@[b].0 <= #[trigger] kept@[a].0 by {
            assert(kept@[a] == sorted@[cut + a]);
            assert(dropped@[b] == sorted@[b]);
        }
        assert forall|x: (u128, usize)| #[trigger] kept@.contains(x) implies orig.contains(x) by {
            let a = choose|a: int| 0 <= a < kept@.len() && kept@[a] == x;
            assert(sorted@[cut + a] == x);
            assert(sorted@.contains(x));
            vstd::seq_lib::to_multiset_contains(sorted@, x);
            vstd::seq_lib::to_multiset_contains(orig, x);
        }
    }
    (kept, dropped)
}

} // verus!
