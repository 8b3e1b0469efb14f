use crate::board::{dir_of, lemma_step, step, Board, Dir};
use crate::score::count_eq;
use vstd::prelude::*;

verus! {

/// Marks a cell that the search has not reached.
pub const UNSEEN: usize = usize::MAX;

/// Where a walk of directional steps from cell `p` ends, if it stays on the grid.
pub open spec fn follow(n: int, p: int, path: Seq<Dir>) -> Option<int>
    decreases path.len(),
{
    if path.len() == 0 {
        Some(p)
    } else {
        match follow(n, p, path.drop_last()) {
            Some(q) => step(n, q, path.last()),
            None => None,
        }
    }
}

/// The walk stays on the grid and enters no fixed cell.
pub open spec fn clear(n: int, fixed: Seq<bool>, p: int, path: Seq<Dir>) -> bool
    decreases path.len(),
{
    if path.len() == 0 {
        true
    } else {
        clear(n, fixed, p, path.drop_last()) && match follow(n, p, path) {
            Some(q) => !fixed[q],
            None => false,
        }
    }
}

/// Cell `v` can be reached from `p` without entering a fixed cell.
pub open spec fn reachable(n: int, fixed: Seq<bool>, p: int, v: int) -> bool {
    exists|path: Seq<Dir>| #[trigger] follow(n, p, path) == Some(v) && clear(n, fixed, p, path)
}

pub proof fn lemma_follow_in_grid(n: int, p: int, path: Seq<Dir>)
    requires
        n >= 1,
        0 <= p < n * n,
    ensures
        follow(n, p, path) matches Some(q) ==> 0 <= q < n * n,
    decreases path.len(),
{
    if path.len() > 0 {
        lemma_follow_in_grid(n, p, path.drop_last());
        if let Some(q) = follow(n, p, path.drop_last()) {
            lemma_step(n, q, path.last());
        }
    }
}

proof fn lemma_push(n: int, fixed: Seq<bool>, p: int, path: Seq<Dir>, d: Dir)
    ensures
        follow(n, p, path.push(d)) == (match follow(n, p, path) {
            Some(q) => step(n, q, d),
            None => None,
        }),
        clear(n, fixed, p, path.push(d)) == (clear(n, fixed, p, path) && match follow(
            n,
            p,
            path.push(d),
        ) {
            Some(q) => !fixed[q],
            None => false,
        }),
{
    assert(path.push(d).drop_last() =~= path);
}

/// A first step followed by a walk.
proof fn lemma_prepend(n: int, fixed: Seq<bool>, p: int, d: Dir, q: int, path: Seq<Dir>)
    requires
        step(n, p, d) == Some(q),
        !fixed[q],
        follow(n, q, path) is Some,
        clear(n, fixed, q, path),
    ensures
        follow(n, p, seq![d] + path) == follow(n, q, path),
        clear(n, fixed, p, seq![d] + path),
    decreases path.len(),
{
    if path.len() == 0 {
        assert(seq![d] + path =~= seq![d]);
        assert(seq![d].drop_last() =~= Seq::<Dir>::empty());
        assert(follow(n, p, Seq::<Dir>::empty()) == Some(p));
        assert(clear(n, fixed, p, Seq::<Dir>::empty()));
        assert(follow(n, p, seq![d]) == Some(q));
    } else {
        let pre = path.drop_last();
        let x = seq![d] + path;
        assert(x.drop_last() =~= seq![d] + pre);
        assert(x.last() == path.last());
        assert(follow(n, q, pre) is Some);
        assert(clear(n, fixed, q, pre));
        lemma_prepend(n, fixed, p, d, q, pre);
        assert(follow(n, p, x) == follow(n, q, path));
    }
}

/// The step from `u` in direction `d` leaves the grid, enters a fixed cell,
/// or enters a cell already reached at most one step farther than `u`.
pub open spec fn step_seen(n: int, fixed: Seq<bool>, dist: Seq<usize>, u: int, d: Dir) -> bool {
    match step(n, u, d) {
        Some(v) => fixed[v] || (dist[v] != UNSEEN && dist[v] <= dist[u] + 1),
        None => true,
    }
}

/// The queue is ordered by distance, and no entry is more than one step
/// farther than the cell under way.
#[verifier::opaque]
pub open spec fn order_part(dist: Seq<usize>, queue: Seq<usize>, head: int) -> bool {
    &&& forall|i: int, j: int|
        #![trigger queue[i], queue[j]]
        0 <= i <= j < queue.len() ==> dist[queue[i] as int] <= dist[queue[j] as int]
    &&& head < queue.len() ==> forall|i: int|
        0 <= i < queue.len() ==> dist[#[trigger] queue[i] as int] <= dist[queue[head] as int] + 1
}

/// Cell `v` is reached from `start` by a walk of exactly `k` steps that
/// enters no fixed cell.
pub open spec fn walk_of_len(n: int, fixed: Seq<bool>, start: int, v: int, k: int) -> bool {
    exists|p: Seq<Dir>|
        #[trigger] follow(n, start, p) == Some(v) && clear(n, fixed, start, p) && p.len() == k
}

/// Every walk from `start` to `b` that enters no fixed cell is at least as
/// long as some such walk to `a`: `a` is no farther than `b`.
pub open spec fn nearer(n: int, fixed: Seq<bool>, start: int, a: int, b: int) -> bool {
    forall|q: Seq<Dir>|
        #[trigger] follow(n, start, q) == Some(b) && clear(n, fixed, start, q) ==> exists|p: Seq<Dir>|
            #[trigger] follow(n, start, p) == Some(a) && clear(n, fixed, start, p) && p.len() <= q.len()
}

/// Every reached cell is reached by a walk as long as its distance.
#[verifier::opaque]
pub open spec fn reach_part(n: int, fixed: Seq<bool>, start: int, dist: Seq<usize>) -> bool {
    forall|v: int|
        0 <= v < n * n && #[trigger] dist[v] != UNSEEN ==> walk_of_len(n, fixed, start, v, dist[v] as int)
}

/// Every reached cell but the start was reached by one step from a reached
/// cell one nearer.
#[verifier::opaque]
pub open spec fn tree_part(
    n: int,
    fixed: Seq<bool>,
    start: int,
    dist: Seq<usize>,
    parent: Seq<usize>,
    came: Seq<usize>,
) -> bool {
    forall|v: int|
        0 <= v < n * n && v != start && #[trigger] dist[v] != UNSEEN ==> {
            &&& parent[v] < n * n
            &&& came[v] < 4
            &&& step(n, parent[v] as int, dir_of(came[v] as int)) == Some(v)
            &&& !fixed[v]
            &&& dist[parent[v] as int] != UNSEEN
            &&& dist[parent[v] as int] + 1 == dist[v]
        }
}

/// The queue holds the reached cells, each no farther than its place.
#[verifier::opaque]
pub open spec fn queue_part(n: int, dist: Seq<usize>, queue: Seq<usize>) -> bool {
    &&& forall|i: int|
        0 <= i < queue.len() ==> #[trigger] queue[i] < n * n && dist[queue[i] as int] != UNSEEN
            && dist[queue[i] as int] <= i
    &&& forall|v: int|
        0 <= v < n * n && #[trigger] dist[v] != UNSEEN ==> exists|i: int|
            0 <= i < queue.len() && #[trigger] queue[i] == v
    &&& forall|i: int, j: int|
        #![trigger queue[i], queue[j]]
        0 <= i < j < queue.len() ==> queue[i] != queue[j]
}

/// Every step out of a processed cell has been looked at.
#[verifier::opaque]
pub open spec fn done_part(n: int, fixed: Seq<bool>, dist: Seq<usize>, queue: Seq<usize>, head: int) -> bool {
    forall|i: int, d: Dir|
        #![trigger queue[i], step(n, queue[i] as int, d)]
        0 <= i < head ==> step_seen(n, fixed, dist, queue[i] as int, d)
}

/// State of the search: which cells are reached, by which step, and in what order.
pub open spec fn search_inv(
    n: int,
    fixed: Seq<bool>,
    start: int,
    dist: Seq<usize>,
    parent: Seq<usize>,
    came: Seq<usize>,
    queue: Seq<usize>,
    head: int,
) -> bool {
    let nn = n * n;
    &&& n >= 1
    &&& fixed.len() == nn
    &&& dist.len() == nn
    &&& parent.len() == nn
    &&& came.len() == nn
    &&& nn <= usize::MAX
    &&& 0 <= start < nn
    &&& dist[start] == 0
    &&& 0 <= head <= queue.len()
    &&& reach_part(n, fixed, start, dist)
    &&& tree_part(n, fixed, start, dist, parent, came)
    &&& queue_part(n, dist, queue)
    &&& done_part(n, fixed, dist, queue, head)
    &&& order_part(dist, queue, head)
    &&& queue.len() + count_eq(dist, UNSEEN, nn) <= nn
}

/// Breadth-first search over the grid from `start`, never entering a fixed
/// cell. It returns the cells reached in the order reached, and for each cell
/// its distance (`UNSEEN` when not reached), the cell it was reached from and
/// the index of the direction of that last step.
pub fn search_tree(b: &Board, start: usize, fixed: &Vec<bool>) -> (r: (
    Vec<usize>,
    Vec<usize>,
    Vec<usize>,
    Vec<usize>,
))
    requires
        b.wf(),
        start < b.cells@.len(),
        fixed@.len() == b.cells@.len(),
    ensures
        ({
            let (order, dist, parent, came) = r;
            let n = b.size as int;
            let nn = n * n;
            &&& search_inv(n, fixed@, start as int, dist@, parent@, came@, order@, order@.len() as int)
            &&& forall|v: int|
                0 <= v < nn ==> (#[trigger] dist@[v] != UNSEEN <==> reachable(n, fixed@, start as int, v))
            &&& forall|path: Seq<Dir>|
                #[trigger] follow(n, start as int, path) is Some && clear(n, fixed@, start as int, path)
                    ==> dist@[follow(n, start as int, path).unwrap()] <= path.len()
            &&& forall|v: int|
                0 <= v < nn && #[trigger] dist@[v] != UNSEEN ==> walk_of_len(n, fixed@, start as int, v, dist@[v] as int)
        }),
{
    let ghost n = b.size as int;
    let ghost fx = fixed@;
    let nn = b.cells.len();
    let mut dist: Vec<usize> = Vec::new();
    let mut parent: Vec<usize> = Vec::new();
    let mut came: Vec<usize> = Vec::new();
    let mut i: usize = 0;
    while i < nn
        invariant
            i <= nn,
            dist@.len() == i,
            parent@.len() == i,
            came@.len() == i,
            forall|q: int| 0 <= q < i ==> #[trigger] dist@[q] == UNSEEN,
        decreases nn - i,
    {
        dist.push(UNSEEN);
        parent.push(0);
        came.push(0);
        i += 1;
    }
    proof {
        crate::score::lemma_count_eq_bound(dist@, UNSEEN, nn as int);
        crate::score::lemma_count_eq_update(dist@, UNSEEN, nn as int, start as int, 0);
        let path = Seq::<Dir>::empty();
        assert(follow(n, start as int, path) == Some(start as int) && clear(n, fx, start as int, path));
        assert(walk_of_len(n, fx, start as int, start as int, 0));
    }
    dist.set(start, 0);
    let mut queue: Vec<usize> = Vec::new();
    queue.push(start);
    let mut head: usize = 0;
    proof {
        reveal(reach_part);
        reveal(tree_part);
        reveal(queue_part);
        reveal(done_part);
        reveal(order_part);
        assert forall|v: int| 0 <= v < nn && #[trigger] dist@[v] != UNSEEN implies exists|i: int|
            0 <= i < queue@.len() && #[trigger] queue@[i] == v by {
            assert(queue@[0] == v);
        }
        assert(search_inv(n, fx, start as int, dist@, parent@, came@, queue@, head as int));
    }
    while head < queue.len()
        invariant
            b.wf(),
            n == b.size,
            nn == n * n,
            fx == fixed@,
            search_inv(n, fx, start as int, dist@, parent@, came@, queue@, head as int),
        decreases nn - head,
    {
        proof {
            reveal(queue_part);
        }
        let u = queue[head];
        let mut di: usize = 0;
        while di < 4
            invariant
                b.wf(),
                n == b.size,
                nn == n * n,
                fx == fixed@,
                head < queue@.len(),
                u == queue@[head as int],
                di <= 4,
                search_inv(n, fx, start as int, dist@, parent@, came@, queue@, head as int),
                forall|j: int|
                    0 <= j < di ==> step_seen(n, fx, dist@, u as int, #[trigger] dir_of(j)),
            decreases 4 - di,
        {
            let d = Dir::from_index(di);
            let ghost before = dist@;
            proof {
                reveal(queue_part);
            }
            if let Some(v) = b.neighbor(u, d) {
                if !fixed[v] && dist[v] == UNSEEN {
                    proof {
                        lemma_search_visit(n, fx, start as int, dist@, parent@, came@, queue@, head as int, u as int, v as int, d);
                    }
                    dist.set(v, dist[u] + 1);
                    parent.set(v, u);
                    came.set(v, di);
                    queue.push(v);
                }
            }
            proof {
                assert forall|j: int|
                    0 <= j < di + 1 implies step_seen(n, fx, dist@, u as int, #[trigger] dir_of(j)) by {
                    reveal(queue_part);
                    reveal(order_part);
                    lemma_step(n, u as int, dir_of(j));
                    if let Some(v) = step(n, u as int, dir_of(j)) {
                        if !fx[v] {
                            if j < di {
                                assert(before[v] != UNSEEN);
                            }
                            assert(dist@[v] != UNSEEN);
                            assert(queue_part(n, dist@, queue@));
                            assert(order_part(dist@, queue@, head as int));
                            let k = choose|k: int| 0 <= k < queue@.len() && #[trigger] queue@[k] == v;
                            assert(dist@[queue@[k] as int] <= dist@[queue@[head as int] as int] + 1);
                        }
                    }
                }
            }
            di += 1;
        }
        proof {
            reveal(order_part);
            if head + 1 < queue@.len() {
                assert(dist@[queue@[head as int] as int] <= dist@[queue@[head + 1] as int]);
            }
            reveal(done_part);
            assert forall|i: int, d: Dir|
                #![trigger queue@[i], step(n, queue@[i] as int, d)]
                0 <= i < head + 1 implies step_seen(n, fx, dist@, queue@[i] as int, d) by {
                if i == head {
                    assert(dir_of(d.bit() as int) == d);
                }
            }
        }
        head += 1;
    }
    proof {
        reveal(reach_part);
        assert forall|v: int| 0 <= v < nn implies (#[trigger] dist@[v] != UNSEEN <==> reachable(
            n,
            fx,
            start as int,
            v,
        )) by {
            if reachable(n, fx, start as int, v) {
                let path = choose|path: Seq<Dir>|
                    #[trigger] follow(n, start as int, path) == Some(v) && clear(n, fx, start as int, path);
                lemma_search_closed(n, fx, start as int, dist@, parent@, came@, queue@, path);
            }
            if dist@[v] != UNSEEN {
                assert(walk_of_len(n, fx, start as int, v, dist@[v] as int));
                let p = choose|p: Seq<Dir>|
                    #[trigger] follow(n, start as int, p) == Some(v) && clear(n, fx, start as int, p) && p.len()
                        == dist@[v];
                assert(follow(n, start as int, p) == Some(v) && clear(n, fx, start as int, p));
            }
        }
        assert forall|path: Seq<Dir>|
            #[trigger] follow(n, start as int, path) is Some && clear(n, fx, start as int, path)
                implies dist@[follow(n, start as int, path).unwrap()] <= path.len() by {
            lemma_search_closed(n, fx, start as int, dist@, parent@, came@, queue@, path);
        }
        assert forall|v: int|
            0 <= v < nn && #[trigger] dist@[v] != UNSEEN implies walk_of_len(n, fx, start as int, v, dist@[v] as int) by {}
    }
    (queue, dist, parent, came)
}

/// Reaching a fresh cell `v` from the cell `u` under way keeps the search's state.
proof fn lemma_search_visit(
    n: int,
    fixed: Seq<bool>,
    start: int,
    dist: Seq<usize>,
    parent: Seq<usize>,
    came: Seq<usize>,
    queue: Seq<usize>,
    head: int,
    u: int,
    v: int,
    d: Dir,
)
    requires
        search_inv(n, fixed, start, dist, parent, came, queue, head),
        head < queue.len(),
        u == queue[head],
        step(n, u, d) == Some(v),
        0 <= v < n * n,
        !fixed[v],
        dist[v] == UNSEEN,
    ensures
        dist[u] + 1 <= queue.len(),
        search_inv(
            n,
            fixed,
            start,
            dist.update(v, (dist[u] + 1) as usize),
            parent.update(v, u as usize),
            came.update(v, d.bit() as usize),
            queue.push(v as usize),
            head,
        ),
{
    let nn = n * n;
    let nd = (dist[u] + 1) as usize;
    reveal(queue_part);
    assert(queue[head] < nn && dist[queue[head] as int] <= head);
    assert(queue_part_ranges(dist, queue));
    crate::score::lemma_count_eq_present(dist, UNSEEN, nn, v);
    crate::score::lemma_count_eq_update(dist, UNSEEN, nn, v, nd);
    lemma_visit_reach(n, fixed, start, dist, u, v, d, nd);
    lemma_visit_tree(n, fixed, start, dist, parent, came, u, v, d, nd);
    lemma_visit_queue(n, dist, queue, head, v, nd);
    lemma_visit_order(dist, queue, head, v, nd);
    lemma_visit_done(n, fixed, dist, queue, head, v, nd);
}

proof fn lemma_visit_reach(n: int, fixed: Seq<bool>, start: int, dist: Seq<usize>, u: int, v: int, d: Dir, nd: usize)
    requires
        n >= 1,
        dist.len() == n * n,
        reach_part(n, fixed, start, dist),
        0 <= u < n * n,
        dist[u] != UNSEEN,
        nd == dist[u] + 1,
        step(n, u, d) == Some(v),
        0 <= v < n * n,
        !fixed[v],
    ensures
        reach_part(n, fixed, start, dist.update(v, nd)),
{
    reveal(reach_part);
    let d2 = dist.update(v, nd);
    assert(walk_of_len(n, fixed, start, u, dist[u] as int));
    let path = choose|path: Seq<Dir>|
        #[trigger] follow(n, start, path) == Some(u) && clear(n, fixed, start, path) && path.len() == dist[u];
    lemma_push(n, fixed, start, path, d);
    assert(follow(n, start, path.push(d)) == Some(v));
    assert forall|w: int| 0 <= w < n * n && #[trigger] d2[w] != UNSEEN implies walk_of_len(n, fixed, start, w, d2[w] as int) by {
        if w != v {
            assert(dist[w] != UNSEEN);
        } else {
            assert(path.push(d).len() == nd);
        }
    }
}

proof fn lemma_visit_tree(
    n: int,
    fixed: Seq<bool>,
    start: int,
    dist: Seq<usize>,
    parent: Seq<usize>,
    came: Seq<usize>,
    u: int,
    v: int,
    d: Dir,
    nd: usize,
)
    requires
        dist.len() == n * n,
        parent.len() == n * n,
        came.len() == n * n,
        tree_part(n, fixed, start, dist, parent, came),
        n * n <= usize::MAX,
        0 <= u < n * n,
        dist[u] != UNSEEN,
        nd == dist[u] + 1,
        step(n, u, d) == Some(v),
        0 <= v < n * n,
        !fixed[v],
        dist[v] == UNSEEN,
        dist[start] != UNSEEN,
    ensures
        tree_part(n, fixed, start, dist.update(v, nd), parent.update(v, u as usize), came.update(v, d.bit() as usize)),
{
    reveal(tree_part);
    let d2 = dist.update(v, nd);
    let p2 = parent.update(v, u as usize);
    let c2 = came.update(v, d.bit() as usize);
    assert(dir_of(d.bit() as int) == d);
    assert forall|w: int| 0 <= w < n * n && w != start && #[trigger] d2[w] != UNSEEN implies {
        &&& p2[w] < n * n
        &&& c2[w] < 4
        &&& step(n, p2[w] as int, dir_of(c2[w] as int)) == Some(w)
        &&& !fixed[w]
        &&& d2[p2[w] as int] != UNSEEN
        &&& d2[p2[w] as int] + 1 == d2[w]
    } by {
        if w != v {
            assert(dist[w] != UNSEEN);
            assert(parent[w] as int != v);
        }
    }
}

proof fn lemma_visit_order(dist: Seq<usize>, queue: Seq<usize>, head: int, v: int, nd: usize)
    requires
        order_part(dist, queue, head),
        queue_part_ranges(dist, queue),
        dist.len() <= usize::MAX,
        0 <= head < queue.len(),
        0 <= v < dist.len(),
        dist[v] == UNSEEN,
        nd == dist[queue[head] as int] + 1,
    ensures
        order_part(dist.update(v, nd), queue.push(v as usize), head),
{
    reveal(order_part);
    let d2 = dist.update(v, nd);
    let q2 = queue.push(v as usize);
    assert forall|i: int| 0 <= i < queue.len() implies d2[#[trigger] queue[i] as int] == dist[queue[i] as int] by {
        assert(dist[queue[i] as int] != UNSEEN);
    }
    assert(q2[queue.len() as int] == v);
    assert forall|i: int, j: int|
        #![trigger q2[i], q2[j]]
        0 <= i <= j < q2.len() implies d2[q2[i] as int] <= d2[q2[j] as int] by {
        if j < queue.len() {
            assert(q2[i] == queue[i] && q2[j] == queue[j]);
        } else if i < queue.len() {
            assert(q2[i] == queue[i]);
        }
    }
    assert forall|i: int| 0 <= i < q2.len() implies d2[#[trigger] q2[i] as int] <= d2[q2[head] as int] + 1 by {
        assert(q2[head] == queue[head]);
        if i < queue.len() {
            assert(q2[i] == queue[i]);
        }
    }
}

/// Every queued cell is a reached cell of the grid.
pub open spec fn queue_part_ranges(dist: Seq<usize>, queue: Seq<usize>) -> bool {
    forall|i: int|
        0 <= i < queue.len() ==> #[trigger] queue[i] < dist.len() && dist[queue[i] as int] != UNSEEN
}

proof fn lemma_visit_queue(n: int, dist: Seq<usize>, queue: Seq<usize>, head: int, v: int, nd: usize)
    requires
        dist.len() == n * n,
        queue_part(n, dist, queue),
        n * n <= usize::MAX,
        0 <= head < queue.len(),
        nd <= queue.len(),
        0 <= v < n * n,
        dist[v] == UNSEEN,
        nd != UNSEEN,
    ensures
        queue_part(n, dist.update(v, nd), queue.push(v as usize)),
{
    reveal(queue_part);
    let d2 = dist.update(v, nd);
    let q2 = queue.push(v as usize);
    assert forall|i: int| 0 <= i < q2.len() implies #[trigger] q2[i] < n * n && d2[q2[i] as int] != UNSEEN
        && d2[q2[i] as int] <= i by {
        if i < queue.len() {
            assert(q2[i] == queue[i]);
        }
    }
    assert forall|w: int| 0 <= w < n * n && #[trigger] d2[w] != UNSEEN implies exists|i: int|
        0 <= i < q2.len() && #[trigger] q2[i] == w by {
        if w == v {
            assert(q2[queue.len() as int] == w);
        } else {
            assert(dist[w] != UNSEEN);
            let i = choose|i: int| 0 <= i < queue.len() && #[trigger] queue[i] == w;
            assert(q2[i] == w);
        }
    }
    assert forall|i: int, j: int|
        #![trigger q2[i], q2[j]]
        0 <= i < j < q2.len() implies q2[i] != q2[j] by {
        if j < queue.len() {
            assert(q2[i] == queue[i] && q2[j] == queue[j]);
        } else {
            assert(q2[i] == queue[i]);
            assert(dist[queue[i] as int] != UNSEEN);
        }
    }
}

proof fn lemma_visit_done(n: int, fixed: Seq<bool>, dist: Seq<usize>, queue: Seq<usize>, head: int, v: int, nd: usize)
    requires
        n >= 1,
        dist.len() == n * n,
        done_part(n, fixed, dist, queue, head),
        queue_part(n, dist, queue),
        0 <= head <= queue.len(),
        0 <= v < n * n,
        dist[v] == UNSEEN,
        nd != UNSEEN,
    ensures
        done_part(n, fixed, dist.update(v, nd), queue.push(v as usize), head),
{
    reveal(done_part);
    reveal(queue_part);
    let d2 = dist.update(v, nd);
    let q2 = queue.push(v as usize);
    assert forall|i: int, e: Dir|
        #![trigger q2[i], step(n, q2[i] as int, e)]
        0 <= i < head implies step_seen(n, fixed, d2, q2[i] as int, e) by {
        assert(q2[i] == queue[i]);
        assert(step_seen(n, fixed, dist, queue[i] as int, e));
        lemma_step(n, queue[i] as int, e);
        assert(dist[queue[i] as int] != UNSEEN);
        assert(queue[i] as int != v);
        if let Some(w) = step(n, queue[i] as int, e) {
            if !fixed[w] {
                assert(w != v);
                assert(d2[w] == dist[w]);
            }
        }
    }
}

/// When the search has run dry, every reachable cell was reached.
proof fn lemma_search_closed(
    n: int,
    fixed: Seq<bool>,
    start: int,
    dist: Seq<usize>,
    parent: Seq<usize>,
    came: Seq<usize>,
    queue: Seq<usize>,
    path: Seq<Dir>,
)
    requires
        search_inv(n, fixed, start, dist, parent, came, queue, queue.len() as int),
        follow(n, start, path) is Some,
        clear(n, fixed, start, path),
    ensures
        dist[follow(n, start, path).unwrap()] != UNSEEN,
        dist[follow(n, start, path).unwrap()] <= path.len(),
    decreases path.len(),
{
    lemma_follow_in_grid(n, start, path);
    if path.len() == 0 {
        assert(follow(n, start, path) == Some(start));
    }
    if path.len() > 0 {
        let pre = path.drop_last();
        lemma_search_closed(n, fixed, start, dist, parent, came, queue, pre);
        reveal(queue_part);
        reveal(done_part);
        let u = follow(n, start, pre).unwrap();
        lemma_follow_in_grid(n, start, pre);
        let i = choose|i: int| 0 <= i < queue.len() && #[trigger] queue[i] == u;
        assert(step(n, queue[i] as int, path.last()) == follow(n, start, path));
    }
}

/// A shortest walk from `start` to `goal` that enters no fixed cell,
/// or `None` exactly when `goal` cannot be reached that way.
pub fn find_path(b: &Board, start: usize, goal: usize, fixed: &Vec<bool>) -> (r: Option<Vec<Dir>>)
    requires
        b.wf(),
        start < b.cells@.len(),
        goal < b.cells@.len(),
        fixed@.len() == b.cells@.len(),
    ensures
        r is Some <==> reachable(b.size as int, fixed@, start as int, goal as int),
        r matches Some(path) ==> follow(b.size as int, start as int, path@) == Some(goal as int)
            && clear(b.size as int, fixed@, start as int, path@),
        r matches Some(path) ==> forall|other: Seq<Dir>|
            #[trigger] follow(b.size as int, start as int, other) == Some(goal as int) && clear(
                b.size as int,
                fixed@,
                start as int,
                other,
            ) ==> path@.len() <= other.len(),
{
    let ghost n = b.size as int;
    let ghost fx = fixed@;
    let (order, dist, parent, came) = search_tree(b, start, fixed);
    if dist[goal] == UNSEEN {
        return None;
    }
    let mut back: Vec<Dir> = Vec::new();
    let ghost mut suffix: Seq<Dir> = Seq::empty();
    let mut cur = goal;
    while cur != start
        invariant
            b.wf(),
            n == b.size,
            fx == fixed@,
            search_inv(n, fx, start as int, dist@, parent@, came@, order@, order@.len() as int),
            0 <= cur < n * n,
            dist@[cur as int] != UNSEEN,
            follow(n, cur as int, suffix) == Some(goal as int),
            clear(n, fx, cur as int, suffix),
            suffix.len() + dist@[cur as int] == dist@[goal as int],
            forall|path: Seq<Dir>|
                #[trigger] follow(n, start as int, path) is Some && clear(n, fx, start as int, path)
                    ==> dist@[follow(n, start as int, path).unwrap()] <= path.len(),
            back@.len() == suffix.len(),
            forall|i: int| 0 <= i < back@.len() ==> #[trigger] back@[i] == suffix[suffix.len() - 1 - i],
        decreases dist@[cur as int],
    {
        proof {
            reveal(tree_part);
        }
        let p = parent[cur];
        let d = Dir::from_index(came[cur]);
        proof {
            lemma_prepend(n, fx, p as int, d, cur as int, suffix);
            suffix = seq![d] + suffix;
        }
        back.push(d);
        cur = p;
    }
    let mut path: Vec<Dir> = Vec::new();
    let mut j: usize = 0;
    while j < back.len()
        invariant
            j <= back@.len(),
            back@.len() == suffix.len(),
            forall|i: int| 0 <= i < back@.len() ==> #[trigger] back@[i] == suffix[suffix.len() - 1 - i],
            path@ == suffix.take(j as int),
        decreases back.len() - j,
    {
        path.push(back[back.len() - 1 - j]);
        j += 1;
        proof {
            assert(path@ =~= suffix.take(j as int));
        }
    }
    proof {
        assert(path@ =~= suffix);
        assert forall|other: Seq<Dir>|
            #[trigger] follow(n, start as int, other) == Some(goal as int) && clear(n, fx, start as int, other)
                implies path@.len() <= other.len() by {
            assert(follow(n, start as int, other) is Some);
        }
    }
    Some(path)
}

/// Every cell holding `tile` that can be reached from `start` is in `found`.
pub open spec fn lists_all_tiles(
    cells: Seq<u8>,
    n: int,
    fixed: Seq<bool>,
    start: int,
    tile: u8,
    found: Seq<usize>,
) -> bool {
    forall|v: int|
        0 <= v < cells.len() && reachable(n, fixed, start, v) && cells[v] == tile ==> exists|i: int|
            0 <= i < found.len() && #[trigger] found[i] == v
}

/// The cells holding `tile` that can be reached from `start` without entering a
/// fixed cell, nearest first; `None` when there is none.
pub fn search_tiles(b: &Board, tile: u8, start: usize, fixed: &Vec<bool>) -> (r: Option<Vec<usize>>)
    requires
        b.wf(),
        start < b.cells@.len(),
        fixed@.len() == b.cells@.len(),
    ensures
        r is None <==> forall|v: int|
            0 <= v < b.cells@.len() && reachable(b.size as int, fixed@, start as int, v) ==> b.cells@[v]
                != tile,
        r matches Some(found) ==> found@.len() > 0,
        r matches Some(found) ==> forall|i: int|
            0 <= i < found@.len() ==> #[trigger] found@[i] < b.cells@.len() && b.cells@[found@[i] as int]
                == tile && reachable(b.size as int, fixed@, start as int, found@[i] as int),
        r matches Some(found) ==> lists_all_tiles(b.cells@, b.size as int, fixed@, start as int, tile, found@),
        r matches Some(found) ==> forall|i: int, j: int|
            #![trigger found@[i], found@[j]]
            0 <= i < j < found@.len() ==> found@[i] != found@[j] && nearer(
                b.size as int,
                fixed@,
                start as int,
                found@[i] as int,
                found@[j] as int,
            ),
{
    let ghost n = b.size as int;
    let ghost fx = fixed@;
    let nn = b.cells.len();
    let (order, dist, parent, came) = search_tree(b, start, fixed);
    let mut found: Vec<usize> = Vec::new();
    let ghost mut idx: Seq<int> = Seq::empty();
    let mut i: usize = 0;
    while i < order.len()
        invariant
            idx.len() == found@.len(),
            forall|k: int| 0 <= k < idx.len() ==> 0 <= #[trigger] idx[k] < i && order@[idx[k]] == found@[k],
            forall|k1: int, k2: int| 0 <= k1 < k2 < idx.len() ==> #[trigger] idx[k1] < #[trigger] idx[k2],
            b.wf(),
            n == b.size,
            nn == n * n,
            fx == fixed@,
            search_inv(n, fx, start as int, dist@, parent@, came@, order@, order@.len() as int),
            forall|v: int| 0 <= v < nn ==> (#[trigger] dist@[v] != UNSEEN <==> reachable(n, fx, start as int, v)),
            i <= order@.len(),
            forall|k: int|
                0 <= k < found@.len() ==> #[trigger] found@[k] < nn && b.cells@[found@[k] as int] == tile
                    && reachable(n, fx, start as int, found@[k] as int),
            forall|k: int|
                0 <= k < i && b.cells@[#[trigger] order@[k] as int] == tile ==> exists|m: int|
                    0 <= m < found@.len() && #[trigger] found@[m] == order@[k],
        decreases order.len() - i,
    {
        proof {
            reveal(queue_part);
        }
        let v = order[i];
        if b.cells[v] == tile {
            let ghost old_found = found@;
            found.push(v);
            proof {
                idx = idx.push(i as int);
                assert forall|k: int|
                    0 <= k < i + 1 && b.cells@[#[trigger] order@[k] as int] == tile implies exists|m: int|
                        0 <= m < found@.len() && #[trigger] found@[m] == order@[k] by {
                    if k == i {
                        assert(found@[found@.len() - 1] == order@[k]);
                    } else {
                        let m = choose|m: int| 0 <= m < old_found.len() && #[trigger] old_found[m] == order@[k];
                        assert(found@[m] == order@[k]);
                    }
                }
            }
        }
        i += 1;
    }
    proof {
        reveal(queue_part);
        assert forall|v: int|
            0 <= v < nn && reachable(n, fx, start as int, v) && b.cells@[v] == tile implies exists|m: int|
                0 <= m < found@.len() && #[trigger] found@[m] == v by {
            assert(dist@[v] != UNSEEN);
            let k = choose|k: int| 0 <= k < order@.len() && #[trigger] order@[k] == v;
            assert(b.cells@[order@[k] as int] == tile);
        }
    }
    if found.len() > 0 {
        proof {
            reveal(queue_part);
            reveal(order_part);
            assert forall|a: int, c: int|
                #![trigger found@[a], found@[c]]
                0 <= a < c < found@.len() implies found@[a] != found@[c] && nearer(
                    n,
                    fx,
                    start as int,
                    found@[a] as int,
                    found@[c] as int,
                ) by {
                let ia = idx[a];
                let ic = idx[c];
                assert(ia < ic);
                assert(order@[ia] != order@[ic]);
                assert(dist@[order@[ia] as int] <= dist@[order@[ic] as int]);
                let fa = found@[a] as int;
                let fc = found@[c] as int;
                assert(dist@[fa] != UNSEEN);
                assert(walk_of_len(n, fx, start as int, fa, dist@[fa] as int));
                assert forall|q: Seq<Dir>|
                    #[trigger] follow(n, start as int, q) == Some(fc) && clear(n, fx, start as int, q) implies exists|p: Seq<Dir>|
                        #[trigger] follow(n, start as int, p) == Some(fa) && clear(n, fx, start as int, p) && p.len()
                            <= q.len() by {
                    assert(follow(n, start as int, q) is Some);
                    assert(dist@[fc] <= q.len());
                    let p = choose|p: Seq<Dir>|
                        #[trigger] follow(n, start as int, p) == Some(fa) && clear(n, fx, start as int, p) && p.len()
                            == dist@[fa];
                    assert(follow(n, start as int, p) == Some(fa) && clear(n, fx, start as int, p) && p.len() <= q.len());
                }
            }
            assert(found@[0] < nn && b.cells@[found@[0] as int] == tile && reachable(n, fx, start as int, found@[0] as int));
            assert(lists_all_tiles(b.cells@, b.size as int, fixed@, start as int, tile, found@));
        }
        Some(found)
    } else {
        proof {
            assert forall|v: int|
                0 <= v < nn && reachable(n, fx, start as int, v) implies b.cells@[v] != tile by {
                if b.cells@[v] == tile {
                    let m = choose|m: int| 0 <= m < found@.len() && #[trigger] found@[m] == v;
                }
            }
        }
        None
    }
}

} // verus!
