use crate::board::{dir_of, lemma_step, step, Board, Dir, Grid};
use vstd::arithmetic::div_mod::{lemma_fundamental_div_mod, lemma_mod_pos_bound};
use vstd::prelude::*;

verus! {

/// Whether connector bit `d` of a cell value is set.
pub open spec fn has_bit(v: u8, d: Dir) -> bool {
    (v >> (d.bit() as u8)) & 1u8 == 1u8
}

/// Cell `p` and its neighbour in direction `d` both point at each other.
pub open spec fn link(c: Seq<u8>, n: int, p: int, d: Dir) -> bool {
    match step(n, p, d) {
        Some(q) => has_bit(c[p], d) && has_bit(c[q], d.opp()),
        None => false,
    }
}

/// Cells `p` and `q` are joined by an edge of the connector graph.
pub open spec fn adjacent(c: Seq<u8>, n: int, p: int, q: int) -> bool {
    exists|d: Dir| step(n, p, d) == Some(q) && #[trigger] link(c, n, p, d)
}

/// A sequence of cells of the grid, each joined to the next by an edge.
pub open spec fn is_walk(c: Seq<u8>, n: int, w: Seq<int>) -> bool {
    &&& w.len() >= 1
    &&& forall|i: int| 0 <= i < w.len() ==> 0 <= #[trigger] w[i] < n * n
    &&& forall|i: int| 0 <= i < w.len() - 1 ==> #[trigger] adjacent(c, n, w[i], w[i + 1])
}

/// Cells `p` and `q` lie in one component of the connector graph.
pub open spec fn connected(c: Seq<u8>, n: int, p: int, q: int) -> bool {
    exists|w: Seq<int>| #[trigger] is_walk(c, n, w) && w[0] == p && w.last() == q
}

/// Number of cells below `k` in the component of `p`.
pub open spec fn comp_size(c: Seq<u8>, n: int, p: int, k: int) -> nat
    decreases k,
{
    if k <= 0 {
        0
    } else {
        comp_size(c, n, p, k - 1) + if connected(c, n, p, k - 1) {
            1nat
        } else {
            0nat
        }
    }
}

/// Edges that leave cell `q` to the right or downwards; each edge of the
/// graph is counted once this way, at its upper or left end.
pub open spec fn fwd_links(c: Seq<u8>, n: int, q: int) -> nat {
    (if link(c, n, q, Dir::Right) {
        1nat
    } else {
        0nat
    }) + (if link(c, n, q, Dir::Down) {
        1nat
    } else {
        0nat
    })
}

/// Number of edges at cells below `k` in the component of `p`.
pub open spec fn comp_links(c: Seq<u8>, n: int, p: int, k: int) -> nat
    decreases k,
{
    if k <= 0 {
        0
    } else {
        comp_links(c, n, p, k - 1) + if connected(c, n, p, k - 1) {
            fwd_links(c, n, k - 1)
        } else {
            0nat
        }
    }
}

/// Size of the tree that holds cell `p`: its component's size when that
/// component is a tree (one edge fewer than cells), and 0 when the component
/// holds a cycle or `p` is the empty slot.
pub open spec fn tree_value(c: Seq<u8>, n: int, p: int) -> nat {
    let size = comp_size(c, n, p, n * n);
    let links = comp_links(c, n, p, n * n);
    if c[p] == 0 {
        0
    } else if links + 1 == size {
        size
    } else {
        0
    }
}

/// Largest tree value among cells below `k`.
pub open spec fn best_tree(c: Seq<u8>, n: int, k: int) -> nat
    decreases k,
{
    if k <= 0 {
        0
    } else {
        let a = best_tree(c, n, k - 1);
        let b = tree_value(c, n, k - 1);
        if a >= b {
            a
        } else {
            b
        }
    }
}

/// Size of the largest tree that the connectors of a board draw.
pub open spec fn max_tree(g: Grid) -> nat {
    best_tree(g.cells, g.n, g.n * g.n)
}

/// Score unit: a board whose largest tree holds every tile scores at least
/// `FULL_SCORE` times the budget scale.
pub const FULL_SCORE: u128 = 500000;

/// The move budget as a scale factor (1 when the budget is 0).
pub open spec fn budget_scale(max_moves: int) -> int {
    if max_moves <= 0 {
        1
    } else {
        max_moves
    }
}

/// The mark that only a tree over every tile reaches.
pub open spec fn full_mark(max_moves: int) -> int {
    FULL_SCORE * budget_scale(max_moves)
}

/// Score of a board reached after `moves` of at most `max_moves` moves, in
/// units of 1/`max_moves`: for a largest tree of t of the N²−1 tiles it is
/// 500000·t·S/(N²−1) rounded down, and for a tree over every tile it is
/// 500000·(2·S − moves), where S is the budget scale. So a tree over every
/// tile always beats a smaller one, and among those fewer moves score higher.
pub open spec fn score_spec(g: Grid, moves: int, max_moves: int) -> int {
    let t = max_tree(g) as int;
    let tiles = g.n * g.n - 1;
    let scale = budget_scale(max_moves);
    if t == tiles {
        FULL_SCORE * (2 * scale - moves)
    } else {
        (FULL_SCORE * t * scale) / tiles
    }
}

/// Number of entries below `k` equal to `l`.
pub open spec fn count_eq(s: Seq<usize>, l: usize, k: int) -> nat
    decreases k,
{
    if k <= 0 {
        0
    } else {
        count_eq(s, l, k - 1) + if s[k - 1] == l {
            1nat
        } else {
            0nat
        }
    }
}

/// Sum of `fwd_links` over the cells below `k` labelled `l`.
pub open spec fn label_links(c: Seq<u8>, n: int, s: Seq<usize>, l: usize, k: int) -> nat
    decreases k,
{
    if k <= 0 {
        0
    } else {
        label_links(c, n, s, l, k - 1) + if s[k - 1] == l {
            fwd_links(c, n, k - 1)
        } else {
            0nat
        }
    }
}

pub proof fn lemma_count_eq_bound(s: Seq<usize>, l: usize, k: int)
    requires
        k >= 0,
    ensures
        count_eq(s, l, k) <= k,
    decreases k,
{
    if k > 0 {
        lemma_count_eq_bound(s, l, k - 1);
    }
}

pub proof fn lemma_count_eq_present(s: Seq<usize>, l: usize, k: int, i: int)
    requires
        0 <= i < k,
        s[i] == l,
    ensures
        count_eq(s, l, k) >= 1,
    decreases k,
{
    if i < k - 1 {
        lemma_count_eq_present(s, l, k - 1, i);
    }
}

pub proof fn lemma_count_eq_update(s: Seq<usize>, l: usize, k: int, i: int, x: usize)
    requires
        0 <= i < s.len(),
        0 <= k <= s.len(),
        s[i] == l,
        x != l,
    ensures
        count_eq(s.update(i, x), l, k) + (if i < k {
            1int
        } else {
            0int
        }) == count_eq(s, l, k),
    decreases k,
{
    if k > 0 {
        lemma_count_eq_update(s, l, k - 1, i, x);
    }
}

proof fn lemma_adjacent_sym(c: Seq<u8>, n: int, p: int, q: int)
    requires
        n >= 1,
        0 <= p < n * n,
        adjacent(c, n, p, q),
    ensures
        adjacent(c, n, q, p),
        0 <= q < n * n,
{
    let d = choose|d: Dir| step(n, p, d) == Some(q) && #[trigger] link(c, n, p, d);
    lemma_step(n, p, d);
    assert(d.opp().opp() == d);
    assert(step(n, q, d.opp()) == Some(p) && link(c, n, q, d.opp()));
}

proof fn lemma_connected_refl(c: Seq<u8>, n: int, p: int)
    requires
        0 <= p < n * n,
    ensures
        connected(c, n, p, p),
{
    let w = seq![p];
    assert(is_walk(c, n, w));
}

proof fn lemma_connected_extend(c: Seq<u8>, n: int, p: int, q: int, r: int)
    requires
        n >= 1,
        0 <= q < n * n,
        connected(c, n, p, q),
        adjacent(c, n, q, r),
    ensures
        connected(c, n, p, r),
{
    lemma_adjacent_sym(c, n, q, r);
    let w = choose|w: Seq<int>| #[trigger] is_walk(c, n, w) && w[0] == p && w.last() == q;
    let w2 = w.push(r);
    assert forall|i: int| 0 <= i < w2.len() - 1 implies #[trigger] adjacent(
        c,
        n,
        w2[i],
        w2[i + 1],
    ) by {
        if i < w.len() - 1 {
            assert(adjacent(c, n, w[i], w[i + 1]));
        }
    }
    assert(is_walk(c, n, w2));
}

proof fn lemma_connected_sym(c: Seq<u8>, n: int, p: int, q: int)
    requires
        n >= 1,
        connected(c, n, p, q),
    ensures
        connected(c, n, q, p),
{
    let w = choose|w: Seq<int>| #[trigger] is_walk(c, n, w) && w[0] == p && w.last() == q;
    let len = w.len();
    let r = Seq::new(len, |i: int| w[len - 1 - i]);
    assert forall|i: int| 0 <= i < r.len() - 1 implies #[trigger] adjacent(
        c,
        n,
        r[i],
        r[i + 1],
    ) by {
        let j = len - 2 - i;
        assert(adjacent(c, n, w[j], w[j + 1]));
        assert(0 <= w[j] < n * n);
        lemma_adjacent_sym(c, n, w[j], w[j + 1]);
    }
    assert forall|i: int| 0 <= i < r.len() implies 0 <= #[trigger] r[i] < n * n by {
        assert(0 <= w[len - 1 - i] < n * n);
    }
    assert(is_walk(c, n, r));
}

proof fn lemma_connected_trans(c: Seq<u8>, n: int, p: int, q: int, r: int)
    requires
        connected(c, n, p, q),
        connected(c, n, q, r),
    ensures
        connected(c, n, p, r),
{
    let w1 = choose|w: Seq<int>| #[trigger] is_walk(c, n, w) && w[0] == p && w.last() == q;
    let w2 = choose|w: Seq<int>| #[trigger] is_walk(c, n, w) && w[0] == q && w.last() == r;
    let w = w1 + w2.subrange(1, w2.len() as int);
    let l1 = w1.len();
    assert forall|i: int| 0 <= i < w.len() - 1 implies #[trigger] adjacent(
        c,
        n,
        w[i],
        w[i + 1],
    ) by {
        if i < l1 - 1 {
            assert(adjacent(c, n, w1[i], w1[i + 1]));
        } else {
            let j = i - l1 + 1;
            assert(adjacent(c, n, w2[j], w2[j + 1]));
        }
    }
    assert forall|i: int| 0 <= i < w.len() implies 0 <= #[trigger] w[i] < n * n by {
        if i < l1 {
            assert(0 <= w1[i] < n * n);
        } else {
            assert(0 <= w2[i - l1 + 1] < n * n);
        }
    }
    assert(is_walk(c, n, w));
}

/// A set of cells closed under edges holds every cell connected to one of its cells.
proof fn lemma_closed(c: Seq<u8>, n: int, labels: Seq<usize>, p: int, q: int)
    requires
        labels.len() == n * n,
        connected(c, n, p, q),
        forall|a: int, b: int|
            #![trigger labels[a], adjacent(c, n, a, b)]
            0 <= a < n * n && labels[a] == labels[p] && adjacent(c, n, a, b) ==> labels[b]
                == labels[p],
    ensures
        labels[q] == labels[p],
{
    let w = choose|w: Seq<int>| #[trigger] is_walk(c, n, w) && w[0] == p && w.last() == q;
    lemma_walk_labels(c, n, labels, p, w, w.len() - 1);
}

proof fn lemma_walk_labels(c: Seq<u8>, n: int, labels: Seq<usize>, p: int, w: Seq<int>, i: int)
    requires
        labels.len() == n * n,
        is_walk(c, n, w),
        w[0] == p,
        0 <= i < w.len(),
        forall|a: int, b: int|
            #![trigger labels[a], adjacent(c, n, a, b)]
            0 <= a < n * n && labels[a] == labels[p] && adjacent(c, n, a, b) ==> labels[b]
                == labels[p],
    ensures
        labels[w[i]] == labels[p],
    decreases i,
{
    if i > 0 {
        lemma_walk_labels(c, n, labels, p, w, i - 1);
        let j = i - 1;
        assert(adjacent(c, n, w[j], w[j + 1]));
        assert(0 <= w[j] < n * n);
    }
}

/// Components whose label is below `k` are finished: each is connected and
/// closed under edges.
pub open spec fn classes_done(c: Seq<u8>, n: int, labels: Seq<usize>, k: int) -> bool {
    &&& forall|a: int, b: int|
        #![trigger labels[a], labels[b]]
        0 <= a < n * n && 0 <= b < n * n && labels[a] < k && labels[a] == labels[b]
            ==> connected(c, n, a, b)
    &&& forall|a: int, b: int|
        #![trigger labels[a], adjacent(c, n, a, b)]
        0 <= a < n * n && labels[a] < k && adjacent(c, n, a, b) ==> labels[b] == labels[a]
}

/// The state of the search that labels component `k` from root `root`.
pub open spec fn bfs_inv(
    c: Seq<u8>,
    n: int,
    labels: Seq<usize>,
    queue: Seq<usize>,
    head: int,
    k: int,
    root: int,
) -> bool {
    let nn = n * n;
    &&& labels.len() == nn
    &&& 0 <= k <= root < nn
    &&& 0 <= head <= queue.len()
    &&& forall|q: int| 0 <= q < nn ==> #[trigger] labels[q] == nn || labels[q] <= k
    &&& forall|q: int| 0 <= q < root ==> #[trigger] labels[q] != nn
    &&& labels[root] == k
    &&& classes_done(c, n, labels, k)
    &&& forall|q: int| 0 <= q < nn && #[trigger] labels[q] == k ==> connected(c, n, root, q)
    &&& forall|i: int|
        0 <= i < queue.len() ==> #[trigger] queue[i] < nn && labels[queue[i] as int] == k
    &&& forall|q: int|
        0 <= q < nn && #[trigger] labels[q] == k ==> exists|i: int|
            0 <= i < queue.len() && #[trigger] queue[i] == q
    &&& forall|i: int, b: int|
        #![trigger queue[i], adjacent(c, n, queue[i] as int, b)]
        0 <= i < head && adjacent(c, n, queue[i] as int, b) ==> labels[b] == k
    &&& queue.len() + count_eq(labels, nn as usize, nn) <= nn
}

/// Whether connector bit `d` of `v` is set.
pub fn bit_set(v: u8, d: Dir) -> (r: bool)
    ensures
        r == has_bit(v, d),
{
    let i = d.index() as u8;
    (v >> i) & 1u8 == 1u8
}

/// The neighbour of `p` in direction `d` when the two are joined by an edge.
pub fn link_at(b: &Board, p: usize, d: Dir) -> (r: Option<usize>)
    requires
        b.wf(),
        p < b.cells@.len(),
    ensures
        r is Some <==> link(b.cells@, b.size as int, p as int, d),
        r matches Some(q) ==> step(b.size as int, p as int, d) == Some(q as int) && q
            < b.cells@.len(),
{
    match b.neighbor(p, d) {
        Some(q) => {
            if bit_set(b.cells[p], d) && bit_set(b.cells[q], d.opposite()) {
                Some(q)
            } else {
                None
            }
        },
        None => None,
    }
}

/// Labels every cell with the number of its component: two cells get the same
/// label exactly when they are connected.
pub fn component_labels(b: &Board) -> (r: (Vec<usize>, usize))
    requires
        b.wf(),
    ensures
        r.0@.len() == b.cells@.len(),
        r.1 <= b.cells@.len(),
        forall|q: int| 0 <= q < r.0@.len() ==> #[trigger] r.0@[q] < r.1,
        forall|p: int, q: int|
            #![trigger r.0@[p], r.0@[q]]
            0 <= p < r.0@.len() && 0 <= q < r.0@.len() ==> (r.0@[p] == r.0@[q] <==> connected(
                b.cells@,
                b.size as int,
                p,
                q,
            )),
{
    let ghost c = b.cells@;
    let ghost n = b.size as int;
    let nn = b.cells.len();
    let mut labels: Vec<usize> = Vec::new();
    let mut i: usize = 0;
    while i < nn
        invariant
            i <= nn,
            labels@.len() == i,
            forall|q: int| 0 <= q < i ==> #[trigger] labels@[q] == nn,
        decreases nn - i,
    {
        labels.push(nn);
        i += 1;
    }
    let mut k: usize = 0;
    let mut p: usize = 0;
    while p < nn
        invariant
            nn == n * n,
            b.wf(),
            c == b.cells@,
            n == b.size,
            labels@.len() == nn,
            k <= p <= nn,
            forall|q: int| 0 <= q < nn ==> #[trigger] labels@[q] == nn || labels@[q] < k,
            forall|q: int| 0 <= q < p ==> #[trigger] labels@[q] != nn,
            classes_done(c, n, labels@, k as int),
        decreases nn - p,
    {
        if labels[p] == nn {
            proof {
                lemma_count_eq_bound(labels@, nn, nn as int);
                lemma_count_eq_update(labels@, nn, nn as int, p as int, k);
                lemma_connected_refl(c, n, p as int);
            }
            proof {
                lemma_start(c, n, labels@, k, p as int);
            }
            labels.set(p, k);
            let mut queue: Vec<usize> = Vec::new();
            queue.push(p);
            let mut head: usize = 0;
            assert(queue@ =~= seq![p]);
            while head < queue.len()
                invariant
                    nn == n * n,
                    b.wf(),
                    c == b.cells@,
                    n == b.size,
                    bfs_inv(c, n, labels@, queue@, head as int, k as int, p as int),
                decreases nn - head,
            {
                let u = queue[head];
                let mut di: usize = 0;
                while di < 4
                    invariant
                        nn == n * n,
                        b.wf(),
                        c == b.cells@,
                        n == b.size,
                        head < queue@.len(),
                        u == queue@[head as int],
                        di <= 4,
                        bfs_inv(c, n, labels@, queue@, head as int, k as int, p as int),
                        forall|j: int|
                            0 <= j < di && #[trigger] link(c, n, u as int, dir_of(j)) ==> labels@[step(
                                n,
                                u as int,
                                dir_of(j),
                            ).unwrap()] != nn,
                    decreases 4 - di,
                {
                    let d = Dir::from_index(di);
                    let ghost before = labels@;
                    if let Some(v) = link_at(b, u, d) {
                        if labels[v] == nn {
                            proof {
                                lemma_visit(c, n, labels@, queue@, head as int, k, p as int, u as int, v as int, d);
                            }
                            labels.set(v, k);
                            queue.push(v);
                        }
                    }
                    proof {
                        assert forall|j: int|
                            0 <= j < di + 1 && #[trigger] link(c, n, u as int, dir_of(j)) implies labels@[step(
                                n,
                                u as int,
                                dir_of(j),
                            ).unwrap()] != nn by {
                            lemma_step(n, u as int, dir_of(j));
                            if j < di {
                                assert(before[step(n, u as int, dir_of(j)).unwrap()] != nn);
                            }
                        }
                    }
                    di += 1;
                }
                proof {
                    lemma_processed(c, n, labels@, queue@, head as int, k as int, p as int);
                }
                head += 1;
            }
            proof {
                lemma_component_done(c, n, labels@, queue@, k as int, p as int);
            }
            k += 1;
        }
        p += 1;
    }
    proof {
        assert forall|a: int, q: int|
            #![trigger labels@[a], labels@[q]]
            0 <= a < nn && 0 <= q < nn implies (labels@[a] == labels@[q] <==> connected(c, n, a, q)) by {
            if connected(c, n, a, q) {
                lemma_closed(c, n, labels@, a, q);
            }
        }
    }
    (labels, k)
}

/// Labelling a fresh root starts the search of component `k`.
proof fn lemma_start(c: Seq<u8>, n: int, labels: Seq<usize>, k: usize, root: int)
    requires
        n >= 1,
        labels.len() == n * n,
        0 <= k <= root < n * n,
        labels[root] == n * n,
        forall|q: int| 0 <= q < n * n ==> #[trigger] labels[q] == n * n || labels[q] < k,
        forall|q: int| 0 <= q < root ==> #[trigger] labels[q] != n * n,
        classes_done(c, n, labels, k as int),
        count_eq(labels.update(root, k), (n * n) as usize, n * n) + 1 == count_eq(
            labels,
            (n * n) as usize,
            n * n,
        ),
        count_eq(labels, (n * n) as usize, n * n) <= n * n,
    ensures
        bfs_inv(c, n, labels.update(root, k), seq![root as usize], 0, k as int, root),
{
    let nn = n * n;
    let l2 = labels.update(root, k);
    let q2 = seq![root as usize];
    lemma_connected_refl(c, n, root);
    assert forall|a: int, b: int|
        #![trigger l2[a], l2[b]]
        0 <= a < nn && 0 <= b < nn && l2[a] < k && l2[a] == l2[b] implies connected(c, n, a, b) by {
        assert(labels[a] == l2[a] && labels[b] == l2[b]);
    }
    assert forall|a: int, b: int|
        #![trigger l2[a], adjacent(c, n, a, b)]
        0 <= a < nn && l2[a] < k && adjacent(c, n, a, b) implies l2[b] == l2[a] by {
        lemma_adjacent_sym(c, n, a, b);
        assert(labels[a] == l2[a]);
        assert(labels[b] == labels[a]);
    }
    assert forall|q: int| 0 <= q < nn && #[trigger] l2[q] == k implies exists|i: int|
        0 <= i < q2.len() && #[trigger] q2[i] == q by {
        assert(q2[0] == q);
    }
}

/// Labelling a fresh neighbour `v` of the cell `u` under way keeps the search's state.
proof fn lemma_visit(
    c: Seq<u8>,
    n: int,
    labels: Seq<usize>,
    queue: Seq<usize>,
    head: int,
    k: usize,
    root: int,
    u: int,
    v: int,
    d: Dir,
)
    requires
        bfs_inv(c, n, labels, queue, head, k as int, root),
        n >= 1,
        head < queue.len(),
        u == queue[head],
        step(n, u, d) == Some(v),
        link(c, n, u, d),
        0 <= v < n * n,
        labels[v] == n * n,
    ensures
        bfs_inv(c, n, labels.update(v, k), queue.push(v as usize), head, k as int, root),
{
    let nn = n * n;
    let l2 = labels.update(v, k);
    let q2 = queue.push(v as usize);
    assert(adjacent(c, n, u, v));
    assert(labels[u] == k);
    lemma_connected_extend(c, n, root, u, v);
    lemma_count_eq_update(labels, nn as usize, nn, v, k);
    assert forall|a: int, b: int|
        #![trigger l2[a], l2[b]]
        0 <= a < nn && 0 <= b < nn && l2[a] < k && l2[a] == l2[b] implies connected(c, n, a, b) by {
        assert(labels[a] == l2[a] && labels[b] == l2[b]);
    }
    assert forall|a: int, b: int|
        #![trigger l2[a], adjacent(c, n, a, b)]
        0 <= a < nn && l2[a] < k && adjacent(c, n, a, b) implies l2[b] == l2[a] by {
        lemma_adjacent_sym(c, n, a, b);
        assert(labels[a] == l2[a]);
        assert(labels[b] == labels[a]);
    }
    assert forall|q: int| 0 <= q < nn && #[trigger] l2[q] == k implies exists|i: int|
        0 <= i < q2.len() && #[trigger] q2[i] == q by {
        if q == v {
            assert(q2[queue.len() as int] == q);
        } else {
            let i = choose|i: int| 0 <= i < queue.len() && #[trigger] queue[i] == q;
            assert(q2[i] == q);
        }
    }
    assert forall|i: int, b: int|
        #![trigger q2[i], adjacent(c, n, q2[i] as int, b)]
        0 <= i < head && adjacent(c, n, q2[i] as int, b) implies l2[b] == k by {
        assert(q2[i] == queue[i]);
        lemma_adjacent_sym(c, n, queue[i] as int, b);
        assert(labels[b] == k);
    }
    assert forall|i: int| 0 <= i < q2.len() implies #[trigger] q2[i] < nn && l2[q2[i] as int] == k by {
        if i < queue.len() {
            assert(q2[i] == queue[i]);
        }
    }
}

/// Once every edge of the cell under way has been followed, it counts as processed.
proof fn lemma_processed(
    c: Seq<u8>,
    n: int,
    labels: Seq<usize>,
    queue: Seq<usize>,
    head: int,
    k: int,
    root: int,
)
    requires
        n >= 1,
        bfs_inv(c, n, labels, queue, head, k, root),
        head < queue.len(),
        forall|j: int|
            0 <= j < 4 && #[trigger] link(c, n, queue[head] as int, dir_of(j)) ==> labels[step(
                n,
                queue[head] as int,
                dir_of(j),
            ).unwrap()] != n * n,
    ensures
        bfs_inv(c, n, labels, queue, head + 1, k, root),
{
    let nn = n * n;
    let u = queue[head] as int;
    assert forall|i: int, b: int|
        #![trigger queue[i], adjacent(c, n, queue[i] as int, b)]
        0 <= i < head + 1 && adjacent(c, n, queue[i] as int, b) implies labels[b] == k by {
        if i == head {
            let d = choose|d: Dir| step(n, u, d) == Some(b) && #[trigger] link(c, n, u, d);
            let j = d.bit() as int;
            assert(dir_of(j) == d);
            assert(link(c, n, u, dir_of(j)));
            lemma_adjacent_sym(c, n, u, b);
            assert(labels[b] != nn);
            if labels[b] < k {
                assert(adjacent(c, n, b, u));
                assert(labels[u] == labels[b]);
            }
        }
    }
}

/// When the search has run dry, component `k` is finished.
proof fn lemma_component_done(
    c: Seq<u8>,
    n: int,
    labels: Seq<usize>,
    queue: Seq<usize>,
    k: int,
    root: int,
)
    requires
        n >= 1,
        bfs_inv(c, n, labels, queue, queue.len() as int, k, root),
    ensures
        classes_done(c, n, labels, k + 1),
        forall|q: int| 0 <= q < n * n ==> #[trigger] labels[q] == n * n || labels[q] < k + 1,
        forall|q: int| 0 <= q <= root ==> #[trigger] labels[q] != n * n,
{
    let nn = n * n;
    assert forall|a: int, b: int|
        #![trigger labels[a], labels[b]]
        0 <= a < nn && 0 <= b < nn && labels[a] < k + 1 && labels[a] == labels[b] implies connected(
        c,
        n,
        a,
        b,
    ) by {
        if labels[a] == k {
            lemma_connected_sym(c, n, root, a);
            lemma_connected_trans(c, n, a, root, b);
        }
    }
    assert forall|a: int, b: int|
        #![trigger labels[a], adjacent(c, n, a, b)]
        0 <= a < nn && labels[a] < k + 1 && adjacent(c, n, a, b) implies labels[b] == labels[a] by {
        if labels[a] == k {
            let i = choose|i: int| 0 <= i < queue.len() && #[trigger] queue[i] == a;
            assert(adjacent(c, n, queue[i] as int, b));
        }
    }
}

/// Same labels and same component give the same counts.
proof fn lemma_label_counts(c: Seq<u8>, n: int, labels: Seq<usize>, p: int, k: int)
    requires
        0 <= k <= labels.len(),
        0 <= p < labels.len(),
        forall|q: int|
            0 <= q < labels.len() ==> (labels[p] == #[trigger] labels[q] <==> connected(c, n, p, q)),
    ensures
        count_eq(labels, labels[p], k) == comp_size(c, n, p, k),
        label_links(c, n, labels, labels[p], k) == comp_links(c, n, p, k),
    decreases k,
{
    if k > 0 {
        lemma_label_counts(c, n, labels, p, k - 1);
        assert(labels[p] == labels[k - 1] <==> connected(c, n, p, k - 1));
    }
}

proof fn lemma_comp_size_missing(c: Seq<u8>, n: int, p: int, k: int, e: int)
    requires
        0 <= e < k,
        !connected(c, n, p, e),
    ensures
        comp_size(c, n, p, k) <= k - 1,
    decreases k,
{
    if e < k - 1 {
        lemma_comp_size_missing(c, n, p, k - 1, e);
    } else {
        lemma_comp_size_bound(c, n, p, k - 1);
    }
}

proof fn lemma_comp_size_bound(c: Seq<u8>, n: int, p: int, k: int)
    requires
        k >= 0,
    ensures
        comp_size(c, n, p, k) <= k,
    decreases k,
{
    if k > 0 {
        lemma_comp_size_bound(c, n, p, k - 1);
    }
}

/// The empty slot has no connector, so no other cell reaches it.
proof fn lemma_empty_isolated(g: Grid, p: int)
    requires
        g.wf(),
        0 <= p < g.cells.len(),
        p != g.empty,
    ensures
        !connected(g.cells, g.n, p, g.empty),
{
    let c = g.cells;
    let n = g.n;
    if connected(c, n, p, g.empty) {
        let w = choose|w: Seq<int>| #[trigger] is_walk(c, n, w) && w[0] == p && w.last() == g.empty;
        let j = w.len() - 2;
        assert(adjacent(c, n, w[j], w[j + 1]));
        let d = choose|d: Dir| step(n, w[j], d) == Some(g.empty) && #[trigger] link(c, n, w[j], d);
        let s = d.opp().bit() as u8;
        assert((0u8 >> s) & 1u8 == 0u8) by (bit_vector);
        assert(!has_bit(c[g.empty], d.opp()));
    }
}

/// No tree of a board holds more than its N² − 1 tiles.
pub proof fn lemma_max_tree_bound(g: Grid)
    requires
        g.wf(),
    ensures
        max_tree(g) <= g.n * g.n - 1,
{
    lemma_best_tree_bound(g, g.n * g.n);
}

proof fn lemma_best_tree_bound(g: Grid, k: int)
    requires
        g.wf(),
        0 <= k <= g.n * g.n,
    ensures
        best_tree(g.cells, g.n, k) <= g.n * g.n - 1,
    decreases k,
{
    if k > 0 {
        lemma_best_tree_bound(g, k - 1);
        let p = k - 1;
        if g.cells[p] != 0 {
            lemma_empty_isolated(g, p);
            lemma_comp_size_missing(g.cells, g.n, p, g.n * g.n, g.empty);
        }
    }
}

/// Number of edges that leave cell `q` to the right or downwards.
pub fn forward_links(b: &Board, q: usize) -> (r: usize)
    requires
        b.wf(),
        q < b.cells@.len(),
    ensures
        r == fwd_links(b.cells@, b.size as int, q as int),
        r <= 2,
{
    let right: usize = if link_at(b, q, Dir::Right).is_some() {
        1
    } else {
        0
    };
    let down: usize = if link_at(b, q, Dir::Down).is_some() {
        1
    } else {
        0
    };
    right + down
}

/// Size of the largest tree that the board's connectors draw: the largest
/// component of the connector graph that has no cycle, the empty slot left out.
pub fn max_tree_size(b: &Board) -> (r: usize)
    requires
        b.wf(),
    ensures
        r == max_tree(b@),
{
    let ghost c = b.cells@;
    let ghost n = b.size as int;
    let (labels, count) = component_labels(b);
    let nn = b.cells.len();
    let mut sizes: Vec<usize> = Vec::new();
    let mut links: Vec<usize> = Vec::new();
    let mut i: usize = 0;
    while i < count
        invariant
            i <= count,
            sizes@.len() == i,
            links@.len() == i,
            forall|l: int| 0 <= l < i ==> #[trigger] sizes@[l] == 0,
            forall|l: int| 0 <= l < i ==> #[trigger] links@[l] == 0,
        decreases count - i,
    {
        sizes.push(0);
        links.push(0);
        i += 1;
    }
    let mut q: usize = 0;
    while q < nn
        invariant
            b.wf(),
            c == b.cells@,
            n == b.size,
            nn == c.len(),
            labels@.len() == nn,
            forall|x: int| 0 <= x < nn ==> #[trigger] labels@[x] < count,
            q <= nn,
            sizes@.len() == count,
            links@.len() == count,
            forall|l: int|
                0 <= l < count ==> #[trigger] sizes@[l] == count_eq(labels@, l as usize, q as int),
            forall|l: int|
                0 <= l < count ==> #[trigger] links@[l] == (if label_links(
                    c,
                    n,
                    labels@,
                    l as usize,
                    q as int,
                ) <= nn {
                    label_links(c, n, labels@, l as usize, q as int)
                } else {
                    nn as nat
                }),
        decreases nn - q,
    {
        let l = labels[q];
        proof {
            lemma_count_eq_bound(labels@, l, q as int);
        }
        let f = forward_links(b, q);
        let s = sizes[l];
        sizes.set(l, s + 1);
        let e = links[l];
        let ne = if e <= nn - f {
            e + f
        } else {
            nn
        };
        links.set(l, ne);
        q += 1;
    }
    let mut best: usize = 0;
    let mut p: usize = 0;
    while p < nn
        invariant
            b.wf(),
            c == b.cells@,
            n == b.size,
            nn == c.len(),
            nn == n * n,
            labels@.len() == nn,
            forall|x: int| 0 <= x < nn ==> #[trigger] labels@[x] < count,
            forall|x: int, y: int|
                #![trigger labels@[x], labels@[y]]
                0 <= x < nn && 0 <= y < nn ==> (labels@[x] == labels@[y] <==> connected(c, n, x, y)),
            p <= nn,
            sizes@.len() == count,
            links@.len() == count,
            forall|l: int|
                0 <= l < count ==> #[trigger] sizes@[l] == count_eq(labels@, l as usize, nn as int),
            forall|l: int|
                0 <= l < count ==> #[trigger] links@[l] == (if label_links(
                    c,
                    n,
                    labels@,
                    l as usize,
                    nn as int,
                ) <= nn {
                    label_links(c, n, labels@, l as usize, nn as int)
                } else {
                    nn as nat
                }),
            best == best_tree(c, n, p as int),
        decreases nn - p,
    {
        let l = labels[p];
        proof {
            lemma_label_counts(c, n, labels@, p as int, nn as int);
            lemma_count_eq_bound(labels@, l, nn as int);
        }
        let s = sizes[l];
        let e = links[l];
        let v = if b.cells[p] == 0 {
            0
        } else if s >= 1 && e == s - 1 {
            s
        } else {
            0
        };
        assert(v == tree_value(c, n, p as int));
        if v > best {
            best = v;
        }
        p += 1;
    }
    best
}

/// `full_mark` as a value.
pub fn full_mark_of(max_moves: usize) -> (r: u128)
    ensures
        r == full_mark(max_moves as int),
{
    if max_moves == 0 {
        FULL_SCORE
    } else {
        proof {
            assert(max_moves <= 0xffff_ffff_ffff_ffffu128);
        }
        FULL_SCORE * (max_moves as u128)
    }
}

/// Splitting a division by `d` of a scaled value into quotient and remainder parts.
proof fn lemma_scaled_div(a: int, sc: int, d: int)
    requires
        a >= 0,
        sc >= 1,
        d >= 1,
    ensures
        (a * sc) / d == (a / d) * sc + ((a % d) * sc) / d,
{
    let q = a / d;
    let r = a % d;
    lemma_fundamental_div_mod(a, d);
    lemma_mod_pos_bound(a, d);
    let rs = r * sc;
    assert(rs >= 0) by (nonlinear_arith)
        requires
            r >= 0,
            sc >= 1,
            rs == r * sc,
    ;
    lemma_fundamental_div_mod(rs, d);
    lemma_mod_pos_bound(rs, d);
    let x = a * sc;
    let qq = q * sc + rs / d;
    assert(x == qq * d + rs % d) by (nonlinear_arith)
        requires
            a == d * q + r,
            rs == r * sc,
            rs == d * (rs / d) + rs % d,
            x == a * sc,
            qq == q * sc + rs / d,
    ;
    vstd::arithmetic::div_mod::lemma_fundamental_div_mod_converse_div(x, d, qq, rs % d);
}

/// A smaller tree scores below the full mark.
proof fn lemma_partial_below_mark(t: int, sc: int, tiles: int)
    requires
        0 <= t < tiles,
        sc >= 1,
    ensures
        0 <= (FULL_SCORE * t * sc) / tiles < FULL_SCORE * sc,
{
    let x = FULL_SCORE * t * sc;
    assert(x >= 0) by (nonlinear_arith)
        requires
            t >= 0,
            sc >= 1,
            x == FULL_SCORE * t * sc,
    ;
    lemma_fundamental_div_mod(x, tiles);
    lemma_mod_pos_bound(x, tiles);
    let q = x / tiles;
    assert(0 <= q < FULL_SCORE * sc) by (nonlinear_arith)
        requires
            x == tiles * q + x % tiles,
            0 <= x % tiles < tiles,
            x == FULL_SCORE * t * sc,
            0 <= t < tiles,
            sc >= 1,
            x >= 0,
    ;
}

/// Score of the board after `moves` of at most `max_moves` moves; see
/// `score_spec`. Among boards with a tree over every tile, fewer moves score
/// strictly higher.
pub fn score(b: &Board, moves: usize, max_moves: usize) -> (r: u128)
    requires
        b.wf(),
        moves <= max_moves,
    ensures
        r == score_spec(b@, moves as int, max_moves as int),
        r <= 2 * full_mark(max_moves as int),
        max_tree(b@) == b@.n * b@.n - 1 ==> forall|m: int|
            moves < m <= max_moves ==> r > #[trigger] score_spec(b@, m, max_moves as int),
{
    let t = max_tree_size(b);
    proof {
        lemma_max_tree_bound(b@);
        lemma_score_bounds(b@, moves as int, max_moves as int);
        assert(moves <= 0xffff_ffff_ffff_ffffu128);
        assert(max_moves <= 0xffff_ffff_ffff_ffffu128);
        assert(b.cells@.len() <= 0xffff_ffff_ffff_ffffu128);
    }
    let sc: u128 = if max_moves == 0 {
        1
    } else {
        max_moves as u128
    };
    let tiles = b.cells.len() - 1;
    if t == tiles {
        FULL_SCORE * (2 * sc - moves as u128)
    } else {
        let a: u128 = FULL_SCORE * t as u128;
        let d: u128 = tiles as u128;
        let q = a / d;
        let r = a % d;
        proof {
            lemma_scaled_div(a as int, sc as int, d as int);
            lemma_partial_below_mark(t as int, sc as int, d as int);
            lemma_fundamental_div_mod(a as int, d as int);
            lemma_mod_pos_bound(a as int, d as int);
            assert(r * sc <= 0xffff_ffff_ffff_ffffu128 * 0xffff_ffff_ffff_ffffu128) by (nonlinear_arith)
                requires
                    r < d,
                    d <= 0xffff_ffff_ffff_ffffu128,
                    sc <= 0xffff_ffff_ffff_ffffu128,
            ;
            let ai = a as int;
            let si = sc as int;
            let di = d as int;
            let qi = q as int;
            let ri = r as int;
            let rest = (ri * si) / di;
            assert(ri * si >= 0) by (nonlinear_arith)
                requires
                    ri >= 0,
                    si >= 1,
            ;
            assert(rest >= 0) by (nonlinear_arith)
                requires
                    ri * si >= 0,
                    di >= 1,
                    rest == (ri * si) / di,
            ;
            assert(ai * si == FULL_SCORE * t * si) by (nonlinear_arith)
                requires
                    ai == FULL_SCORE * t,
            ;
            assert(qi * si <= (ai * si) / di);
        }
        q * sc + (r * sc) / d
    }
}

/// The score depends on the board's size and cells alone: equal boards get
/// equal scores, however they were reached.
pub proof fn lemma_score_depends_on_cells(g1: Grid, g2: Grid, moves: int, max_moves: int)
    requires
        g1.n == g2.n,
        g1.cells == g2.cells,
    ensures
        score_spec(g1, moves, max_moves) == score_spec(g2, moves, max_moves),
{
}

/// Under one move budget, a tree over every tile scores at least the full
/// mark, exactly that when the whole budget was used, and more than any board
/// whose largest tree is smaller (a component with a cycle counts as no tree).
pub proof fn lemma_spanning_tree_wins(g1: Grid, m1: int, g2: Grid, m2: int, max_moves: int)
    requires
        g1.wf(),
        g2.wf(),
        max_tree(g1) == g1.n * g1.n - 1,
        max_tree(g2) < g2.n * g2.n - 1,
        0 <= m1 <= max_moves,
        0 <= m2 <= max_moves,
    ensures
        score_spec(g1, m1, max_moves) >= full_mark(max_moves),
        max_moves > 0 ==> score_spec(g1, max_moves, max_moves) == full_mark(max_moves),
        score_spec(g2, m2, max_moves) < full_mark(max_moves),
        score_spec(g1, m1, max_moves) > score_spec(g2, m2, max_moves),
{
    let sc = budget_scale(max_moves);
    assert(FULL_SCORE * (2 * sc - m1) >= FULL_SCORE * sc) by (nonlinear_arith)
        requires
            m1 <= sc,
    ;
    lemma_max_tree_bound(g2);
    lemma_partial_below_mark(max_tree(g2) as int, sc, g2.n * g2.n - 1);
}

/// Scores lie between 0 and twice the full mark.
pub proof fn lemma_score_bounds(g: Grid, moves: int, max_moves: int)
    requires
        g.wf(),
        0 <= moves <= max_moves,
    ensures
        0 <= score_spec(g, moves, max_moves) <= 2 * full_mark(max_moves),
{
    let sc = budget_scale(max_moves);
    lemma_max_tree_bound(g);
    if max_tree(g) == g.n * g.n - 1 {
        assert(0 <= FULL_SCORE * (2 * sc - moves) <= 2 * (FULL_SCORE * sc)) by (nonlinear_arith)
            requires
                0 <= moves <= sc,
        ;
    } else {
        lemma_partial_below_mark(max_tree(g) as int, sc, g.n * g.n - 1);
    }
}

/// Among boards whose largest tree spans every tile, fewer moves score
/// strictly higher.
pub proof fn lemma_fewer_moves_win(g1: Grid, m1: int, g2: Grid, m2: int, max_moves: int)
    requires
        max_tree(g1) == g1.n * g1.n - 1,
        max_tree(g2) == g2.n * g2.n - 1,
        0 <= m1 < m2 <= max_moves,
    ensures
        score_spec(g1, m1, max_moves) > score_spec(g2, m2, max_moves),
{
    let sc = budget_scale(max_moves);
    assert(FULL_SCORE * (2 * sc - m1) > FULL_SCORE * (2 * sc - m2)) by (nonlinear_arith)
        requires
            m1 < m2,
    ;
}

} // verus!
