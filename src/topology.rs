//! Watts–Strogatz construction: a ring lattice, then random rewiring.
use vstd::prelude::*;
use crate::graph::{WeightedGraph, FULL_WEIGHT};
use crate::random::chance;
use rand::rngs::StdRng;
use vstd::arithmetic::div_mod::lemma_fundamental_div_mod_converse;
use vstd::relations::injective_on;
use vstd::set_lib::{lemma_int_range, lemma_map_size, lemma_set_disjoint_lens, set_int_range};

verus! {

/// How many steps forward around a ring of `n` nodes lead from `i` to `j`.
pub open spec fn ring_offset(n: int, i: int, j: int) -> int {
    if j >= i {
        j - i
    } else {
        j - i + n
    }
}

/// `j` is one of the `k / 2` successors of `i` on the ring.
pub open spec fn successor_within(n: int, k: int, i: int, j: int) -> bool {
    1 <= ring_offset(n, i, j) <= k / 2
}

/// `i` and `j` are neighbours in the ring lattice of degree `k`: one lies among
/// the `k / 2` nearest successors of the other.
pub open spec fn ring_adjacent(n: int, k: int, i: int, j: int) -> bool {
    successor_within(n, k, i, j) || successor_within(n, k, j, i)
}

/// The graph is the ring lattice of degree `k`, each edge weighing `marker`.
pub open spec fn is_ring_lattice(g: WeightedGraph, k: int, marker: int) -> bool {
    forall|i: int, j: int|
        0 <= i < g.dim() && 0 <= j < g.dim() ==> #[trigger] g.weight(i, j) == if ring_adjacent(
            g.dim() as int,
            k,
            i,
            j,
        ) {
            marker
        } else {
            0
        }
}

/// The nodes joined to `i` by an edge.
pub open spec fn neighbours(g: WeightedGraph, i: int) -> Set<int> {
    Set::new(|j: int| 0 <= j < g.dim() && g.weight(i, j) != 0)
}

/// The node `d` steps after `i` on a ring of `n` nodes.
pub open spec fn step_forward(n: int, i: int, d: int) -> int {
    if i + d < n {
        i + d
    } else {
        i + d - n
    }
}

/// The node `d` steps before `i` on a ring of `n` nodes.
pub open spec fn step_back(n: int, i: int, d: int) -> int {
    if i - d >= 0 {
        i - d
    } else {
        i - d + n
    }
}

/// In the ring lattice of even degree `k < n` built with a nonzero marker,
/// every node has exactly `k` neighbours: its `k / 2` nearest predecessors
/// and its `k / 2` nearest successors.
pub proof fn lemma_ring_degree(g: WeightedGraph, k: int, marker: int, i: int)
    requires
        g.wf(),
        0 <= k < g.dim(),
        k % 2 == 0,
        marker != 0,
        is_ring_lattice(g, k, marker),
        0 <= i < g.dim(),
    ensures
        neighbours(g, i).len() == k,
        neighbours(g, i) == set_int_range(1, k / 2 + 1).map(|d: int| step_forward(g.dim() as int, i, d))
            + set_int_range(1, k / 2 + 1).map(|d: int| step_back(g.dim() as int, i, d)),
{
    let n = g.dim() as int;
    let h = k / 2;
    let steps = set_int_range(1, h + 1);
    let fwd = |d: int| step_forward(n, i, d);
    let bwd = |d: int| step_back(n, i, d);
    let succ = steps.map(fwd);
    let pred = steps.map(bwd);
    lemma_int_range(1, h + 1);
    assert forall|d: int| 1 <= d < n implies ring_offset(n, i, #[trigger] step_forward(n, i, d))
        == d && ring_offset(n, step_back(n, i, d), i) == d by {}
    assert(injective_on(fwd, steps)) by {
        assert forall|a: int, b: int|
            steps.contains(a) && steps.contains(b) && #[trigger] fwd(a) == #[trigger] fwd(b) implies a
            == b by {
            assert(ring_offset(n, i, step_forward(n, i, a)) == a);
            assert(ring_offset(n, i, step_forward(n, i, b)) == b);
        }
    }
    assert(injective_on(bwd, steps)) by {
        assert forall|a: int, b: int|
            steps.contains(a) && steps.contains(b) && #[trigger] bwd(a) == #[trigger] bwd(b) implies a
            == b by {
            assert(ring_offset(n, step_back(n, i, a), i) == a);
            assert(ring_offset(n, step_back(n, i, b), i) == b);
        }
    }
    lemma_map_size(steps, succ, fwd);
    lemma_map_size(steps, pred, bwd);
    assert(succ.disjoint(pred)) by {
        assert forall|j: int| succ.contains(j) implies !pred.contains(j) by {
            let a = choose|a: int| steps.contains(a) && fwd(a) == j;
            assert(ring_offset(n, i, j) == a);
            if pred.contains(j) {
                let b = choose|b: int| steps.contains(b) && bwd(b) == j;
                assert(ring_offset(n, j, i) == b);
            }
        }
    }
    lemma_set_disjoint_lens(succ, pred);
    assert(neighbours(g, i) =~= succ + pred) by {
        assert forall|j: int| neighbours(g, i).contains(j) implies (succ + pred).contains(j) by {
            assert(g.weight(i, j) == g.weight(i, j));
            if successor_within(n, k, i, j) {
                let d = ring_offset(n, i, j);
                assert(steps.contains(d) && fwd(d) == j);
            } else {
                let d = ring_offset(n, j, i);
                assert(steps.contains(d) && bwd(d) == j);
            }
        }
        assert forall|j: int| (succ + pred).contains(j) implies neighbours(g, i).contains(j) by {
            if succ.contains(j) {
                let a = choose|a: int| steps.contains(a) && fwd(a) == j;
                assert(ring_offset(n, i, j) == a);
            } else {
                let b = choose|b: int| steps.contains(b) && bwd(b) == j;
                assert(ring_offset(n, j, i) == b);
            }
            assert(g.weight(i, j) == g.weight(i, j));
        }
    }
}

/// The ring lattice of even degree `k < n` built with a nonzero marker has
/// `n * k / 2` edges: one for each node and each of its `k / 2` successors.
pub proof fn lemma_lattice_edge_count(g: WeightedGraph, k: int, marker: int)
    requires
        g.wf(),
        0 <= k < g.dim(),
        k % 2 == 0,
        marker != 0,
        is_ring_lattice(g, k, marker),
    ensures
        g.edge_count() == g.dim() * k / 2,
{
    let n = g.dim() as int;
    let h = k / 2;
    if h == 0 {
        assert(g.edges() =~= Set::<(int, int)>::empty());
        return;
    }
    assert(0 <= n * h) by (nonlinear_arith)
        requires
            0 <= n,
            0 <= h,
    ;
    assert(n * k / 2 == n * h) by (nonlinear_arith)
        requires
            k == 2 * h,
    ;
    lemma_int_range(0, n * h);
    let codes = set_int_range(0, n * h);
    let edge_of = |p: int| unordered(p / h, step_forward(n, p / h, p % h + 1));
    assert forall|p: int| #[trigger] codes.contains(p) implies 0 <= p / h < n && 0 <= p % h < h
        by {
        assert(0 <= p / h < n) by (nonlinear_arith)
            requires
                0 <= p < n * h,
                0 < h,
        ;
        assert(0 <= p % h < h) by (nonlinear_arith)
            requires
                0 < h,
        ;
    }
    assert forall|i: int, d: int| 1 <= d < n && 0 <= i < n implies ring_offset(
        n,
        i,
        #[trigger] step_forward(n, i, d),
    ) == d by {}
    assert(injective_on(edge_of, codes)) by {
        assert forall|a: int, b: int|
            codes.contains(a) && codes.contains(b) && #[trigger] edge_of(a) == #[trigger] edge_of(b)
                implies a == b by {
            let (ia, da) = (a / h, a % h + 1);
            let (ib, db) = (b / h, b % h + 1);
            let fa = step_forward(n, ia, da);
            let fb = step_forward(n, ib, db);
            assert(ring_offset(n, ia, fa) == da);
            assert(ring_offset(n, ib, fb) == db);
            if ia == ib {
                assert(fa == fb);
                assert(a == h * (a / h) + a % h) by (nonlinear_arith)
                    requires
                        0 < h,
                ;
                assert(b == h * (b / h) + b % h) by (nonlinear_arith)
                    requires
                        0 < h,
                ;
            } else {
                assert(ia == fb && fa == ib);
            }
        }
    }
    lemma_map_size(codes, codes.map(edge_of), edge_of);
    assert(g.edges() =~= codes.map(edge_of)) by {
        assert forall|e: (int, int)| g.edges().contains(e) implies codes.map(edge_of).contains(e)
            by {
            assert(g.weight(e.0, e.1) == g.weight(e.0, e.1));
            let (i, d) = if successor_within(n, k, e.0, e.1) {
                (e.0, ring_offset(n, e.0, e.1))
            } else {
                (e.1, ring_offset(n, e.1, e.0))
            };
            let p = i * h + (d - 1);
            lemma_fundamental_div_mod_converse(p, h, i, d - 1);
            assert(0 <= p < n * h) by (nonlinear_arith)
                requires
                    p == i * h + (d - 1),
                    0 <= i < n,
                    1 <= d <= h,
            ;
            assert(codes.contains(p) && edge_of(p) == e);
        }
        assert forall|e: (int, int)| codes.map(edge_of).contains(e) implies g.edges().contains(e)
            by {
            let p = choose|p: int| codes.contains(p) && edge_of(p) == e;
            let i = p / h;
            let f = step_forward(n, i, p % h + 1);
            assert(successor_within(n, k, i, f));
            assert(g.weight(i, f) == marker);
            assert(g.weight(f, i) == g.weight(i, f));
        }
    }
}

/// Every weight of the graph is either 0 or `marker`.
pub open spec fn only_marker(g: WeightedGraph, marker: int) -> bool {
    forall|i: int, j: int|
        0 <= i < g.dim() && 0 <= j < g.dim() ==> #[trigger] g.weight(i, j) == 0 || g.weight(i, j)
            == marker
}

/// The column visited at step `t` of the lattice walk for `row`, which starts
/// `half_k` nodes before `row` and moves forward around the ring.
pub open spec fn walk_column(n: int, row: int, half_k: int, t: int) -> int {
    let p = row - half_k + t;
    if p < 0 {
        p + n
    } else if p >= n {
        p - n
    } else {
        p
    }
}

/// The step of the walk for `row` at which `x` is visited.
pub open spec fn walk_step(n: int, half_k: int, row: int, x: int) -> int {
    if ring_offset(n, row, x) <= half_k {
        half_k + ring_offset(n, row, x)
    } else {
        half_k - ring_offset(n, x, row)
    }
}

/// The ring lattice on `n` nodes where each node is joined to its `k / 2`
/// nearest predecessors and successors. For each row the walk takes `k + 1`
/// steps from `k / 2` nodes before it, wrapping past the last node and
/// skipping the row itself.
pub fn ring_lattice(n: usize, k: usize, marker: u32) -> (g: WeightedGraph)
    requires
        n * n <= usize::MAX,
        k % 2 == 0,
        k < n,
        marker <= FULL_WEIGHT,
    ensures
        g.wf(),
        g.dim() == n,
        is_ring_lattice(g, k as int, marker as int),
{
    let mut g = WeightedGraph::new(n);
    let half_k: usize = k / 2;
    let ghost nn = n as int;
    let ghost h = half_k as int;
    assert(n + n <= usize::MAX) by (nonlinear_arith)
        requires
            n * n <= usize::MAX,
            1 <= n,
    ;
    let mut row: usize = 0;
    while row < n
        invariant
            g.wf(),
            g.dim() == n,
            row <= n,
            marker <= FULL_WEIGHT,
            nn == n,
            h == half_k,
            half_k == k / 2,
            k % 2 == 0,
            k < n,
            n + n <= usize::MAX,
            forall|i: int, j: int|
                0 <= i < n && 0 <= j < n ==> #[trigger] g.weight(i, j) == if ring_adjacent(
                    nn,
                    k as int,
                    i,
                    j,
                ) && (i < row || j < row) {
                    marker as int
                } else {
                    0
                },
        decreases n - row,
    {
        let mut col: usize = n - half_k + row;
        let mut step: usize = 0;
        while step < k + 1
            invariant
                g.wf(),
                g.dim() == n,
                row < n,
                step <= k + 1,
                marker <= FULL_WEIGHT,
                nn == n,
                h == half_k,
                half_k == k / 2,
                k % 2 == 0,
                k < n,
                n + n <= usize::MAX,
                step <= k ==> col == walk_column(nn, row as int, h, step as int) || col
                    == walk_column(nn, row as int, h, step as int) + n,
                col < n + n,
                forall|i: int, j: int|
                    0 <= i < n && 0 <= j < n ==> #[trigger] g.weight(i, j) == if ring_adjacent(
                        nn,
                        k as int,
                        i,
                        j,
                    ) && (i < row || j < row || (i == row && walk_step(nn, h, i, j) < step) || (
                    j == row && walk_step(nn, h, j, i) < step)) {
                        marker as int
                    } else {
                        0
                    },
            decreases k + 1 - step,
        {
            if col > n - 1 {
                col = col - n;
            }
            assert(col == walk_column(nn, row as int, h, step as int));
            if col == row {
                assert(step == half_k);
                assert forall|x: int| 0 <= x < n && ring_adjacent(nn, k as int, row as int, x)
                    implies walk_step(nn, h, row as int, x) != step by {}
                col = col + 1;
                step = step + 1;
            } else {
                assert(ring_adjacent(nn, k as int, row as int, col as int));
                assert(walk_step(nn, h, row as int, col as int) == step);
                assert forall|x: int|
                    0 <= x < n && x != col && ring_adjacent(nn, k as int, row as int, x) implies
                    walk_step(nn, h, row as int, x) != step by {}
                g.put(row, col, marker);
                col = col + 1;
                step = step + 1;
            }
        }
        assert forall|x: int| 0 <= x < n && ring_adjacent(nn, k as int, row as int, x) implies
            walk_step(nn, h, row as int, x) < step by {}
        row = row + 1;
    }
    g
}

/// `after` is `before` with the edge between `row` and `col` moved to lie
/// between `row` and `new_col`, with weight `marker`.
pub open spec fn moved_edge(
    before: WeightedGraph,
    after: WeightedGraph,
    row: int,
    col: int,
    new_col: int,
    marker: int,
) -> bool {
    &&& after.dim() == before.dim()
    &&& forall|i: int, j: int|
        0 <= i < before.dim() && 0 <= j < before.dim() ==> #[trigger] after.weight(i, j) == if (i
            == row && j == new_col) || (i == new_col && j == row) {
            marker
        } else if (i == row && j == col) || (i == col && j == row) {
            0
        } else {
            before.weight(i, j)
        }
}

/// The pair `{a, b}` as (higher node, lower node).
pub open spec fn unordered(a: int, b: int) -> (int, int) {
    if a > b {
        (a, b)
    } else {
        (b, a)
    }
}

/// Moving an existing edge removes exactly that edge and adds the new pair, so
/// the number of edges never grows.
pub proof fn lemma_rewire_edges(
    before: WeightedGraph,
    after: WeightedGraph,
    row: int,
    col: int,
    new_col: int,
    marker: int,
)
    requires
        before.wf(),
        after.wf(),
        0 <= row < before.dim(),
        0 <= col < before.dim(),
        0 <= new_col < before.dim(),
        row != col,
        row != new_col,
        marker != 0,
        before.weight(row, col) != 0,
        moved_edge(before, after, row, col, new_col, marker),
    ensures
        after.edges() == before.edges().remove(unordered(row, col)).insert(
            unordered(row, new_col),
        ),
        after.edge_count() <= before.edge_count(),
{
    let old_edge = unordered(row, col);
    let new_edge = unordered(row, new_col);
    assert(before.weight(old_edge.0, old_edge.1) != 0);
    assert(after.edges() =~= before.edges().remove(old_edge).insert(new_edge)) by {
        assert forall|e: (int, int)| after.edges().contains(e) implies before.edges().remove(
            old_edge,
        ).insert(new_edge).contains(e) by {
            assert(after.weight(e.0, e.1) == after.weight(e.0, e.1));
        }
        assert forall|e: (int, int)| before.edges().remove(old_edge).insert(new_edge).contains(
            e,
        ) implies after.edges().contains(e) by {
            assert(after.weight(e.0, e.1) == after.weight(e.0, e.1));
        }
    }
    before.lemma_edges_finite();
    assert(before.edges().contains(old_edge));
}

/// Moving an edge onto a pair that holds none removes exactly that edge and
/// adds exactly the new one: the number of edges stays the same.
pub proof fn lemma_rewire_keeps_edge_count(
    before: WeightedGraph,
    after: WeightedGraph,
    row: int,
    col: int,
    new_col: int,
    marker: int,
)
    requires
        before.wf(),
        after.wf(),
        0 <= row < before.dim(),
        0 <= col < before.dim(),
        0 <= new_col < before.dim(),
        row != col,
        row != new_col,
        marker != 0,
        before.weight(row, col) != 0,
        before.weight(row, new_col) == 0,
        moved_edge(before, after, row, col, new_col, marker),
    ensures
        after.edges() == before.edges().remove(unordered(row, col)).insert(
            unordered(row, new_col),
        ),
        after.edge_count() == before.edge_count(),
{
    lemma_rewire_edges(before, after, row, col, new_col, marker);
    let new_edge = unordered(row, new_col);
    assert(before.weight(new_edge.0, new_edge.1) == 0);
    before.lemma_edges_finite();
    assert(!before.edges().remove(unordered(row, col)).contains(new_edge));
}

/// Moves the edge between `row` and `col` so that it joins `row` and `new_col`.
pub fn rewire_edge(g: &mut WeightedGraph, row: usize, col: usize, new_col: usize, marker: u32)
    requires
        old(g).wf(),
        row < old(g).dim(),
        col < old(g).dim(),
        new_col < old(g).dim(),
        row != col,
        row != new_col,
        marker <= FULL_WEIGHT,
    ensures
        final(g).wf(),
        moved_edge(*old(g), *final(g), row as int, col as int, new_col as int, marker as int),
{
    g.put(row, col, 0);
    g.put(col, row, 0);
    g.put(row, new_col, marker);
    g.put(new_col, row, marker);
}

/// The denominator of a rewiring probability: `PROBABILITY_SCALE` stands for 1.0.
pub const PROBABILITY_SCALE: u32 = 1_000_000;

/// The weights of `g` as a function on node pairs, zero outside the nodes.
pub open spec fn weights_of(g: WeightedGraph) -> spec_fn(int, int) -> int {
    |i: int, j: int|
        if 0 <= i < g.dim() && 0 <= j < g.dim() {
            g.weight(i, j)
        } else {
            0
        }
}

/// The weights of the ring lattice of degree `k` on `n` nodes.
pub open spec fn lattice_weights(n: int, k: int, marker: int) -> spec_fn(int, int) -> int {
    |i: int, j: int|
        if 0 <= i < n && 0 <= j < n && ring_adjacent(n, k, i, j) {
            marker
        } else {
            0
        }
}

/// `w` with the edge between `row` and `col` moved to `row` and `new_col`.
pub open spec fn moved_weights(
    w: spec_fn(int, int) -> int,
    row: int,
    col: int,
    new_col: int,
    marker: int,
) -> spec_fn(int, int) -> int {
    |i: int, j: int|
        if (i == row && j == new_col) || (i == new_col && j == row) {
            marker
        } else if (i == row && j == col) || (i == col && j == row) {
            0
        } else {
            w(i, j)
        }
}

/// The candidate scan for the pair `(row, col)` from candidate `c` on, reading
/// one draw per candidate other than `row` from position `p` of `draws`: the
/// first accepted candidate receives the edge. Gives the weights and the
/// position of the next unread draw.
pub open spec fn scan_candidates(
    n: int,
    w: spec_fn(int, int) -> int,
    row: int,
    col: int,
    c: int,
    marker: int,
    draws: Seq<bool>,
    p: int,
) -> (spec_fn(int, int) -> int, int)
    decreases n - c,
{
    if c >= n {
        (w, p)
    } else if c == row {
        scan_candidates(n, w, row, col, c + 1, marker, draws, p)
    } else if draws[p] {
        (moved_weights(w, row, col, c, marker), p + 1)
    } else {
        scan_candidates(n, w, row, col, c + 1, marker, draws, p + 1)
    }
}

/// The visit of the pair `(row, col)`: a pair that holds `marker` reads one
/// draw, and when that accepts, the candidate scan follows; any other pair
/// reads nothing and stays.
pub open spec fn visit_pair(
    n: int,
    w: spec_fn(int, int) -> int,
    row: int,
    col: int,
    marker: int,
    draws: Seq<bool>,
    p: int,
) -> (spec_fn(int, int) -> int, int) {
    if w(row, col) == marker {
        if draws[p] {
            scan_candidates(n, w, row, col, 0, marker, draws, p + 1)
        } else {
            (w, p + 1)
        }
    } else {
        (w, p)
    }
}

/// The visits of all pairs `col < row` from `(row, col)` on, by row and then
/// column.
pub open spec fn sweep_pairs(
    n: int,
    w: spec_fn(int, int) -> int,
    row: int,
    col: int,
    marker: int,
    draws: Seq<bool>,
    p: int,
) -> (spec_fn(int, int) -> int, int)
    decreases n - row, row - col,
{
    if row >= n {
        (w, p)
    } else if col >= row {
        sweep_pairs(n, w, row + 1, 0, marker, draws, p)
    } else {
        let v = visit_pair(n, w, row, col, marker, draws, p);
        sweep_pairs(n, v.0, row, col + 1, marker, draws, v.1)
    }
}

/// `d` begins with `log`.
pub open spec fn extends(d: Seq<bool>, log: Seq<bool>) -> bool {
    &&& log.len() <= d.len()
    &&& forall|i: int| 0 <= i < log.len() ==> d[i] == log[i]
}

proof fn lemma_nonempty_edges(g: WeightedGraph, e: (int, int))
    requires
        g.edges().contains(e),
    ensures
        g.edge_count() > 0,
{
    g.lemma_edges_finite();
    if g.edges().len() == 0 {
        g.edges().lemma_len0_is_empty();
        assert(g.edges() == Set::<(int, int)>::empty());
    }
}

/// Visits every pair `col < row` that holds `marker` and, with chance
/// `rewire / PROBABILITY_SCALE`, scans the candidates `new_col != row` in order,
/// taking each with chance `1 / n`; the first taken receives the edge. Returns
/// the outcomes of the draws, in the order they were made: the final weights
/// are the replay of these visits over them.
pub fn rewire_edges(g: &mut WeightedGraph, rng: &mut StdRng, rewire: u32, marker: u32) -> (draws:
    Ghost<Seq<bool>>)
    requires
        old(g).wf(),
        old(g).dim() <= u32::MAX,
        rewire <= PROBABILITY_SCALE,
        marker <= FULL_WEIGHT,
    ensures
        final(g).wf(),
        final(g).dim() == old(g).dim(),
        ({
            let r = sweep_pairs(
                old(g).dim() as int,
                weights_of(*old(g)),
                0,
                0,
                marker as int,
                draws@,
                0,
            );
            r.1 == draws@.len() && weights_of(*final(g)) == r.0
        }),
        only_marker(*old(g), marker as int) ==> only_marker(*final(g), marker as int),
        rewire == 0 ==> final(g).same_weights(old(g)),
        marker != 0 ==> final(g).edge_count() <= old(g).edge_count(),
        marker != 0 && old(g).edge_count() > 0 ==> final(g).edge_count() > 0,
{
    let ghost start = *g;
    let ghost nn = g.dim() as int;
    let ghost m = marker as int;
    let ghost mut log: Seq<bool> = Seq::empty();
    let n = g.size();
    let mut row: usize = 0;
    while row < n
        invariant
            g.wf(),
            g.dim() == n,
            nn == n,
            m == marker,
            row <= n,
            n <= u32::MAX,
            rewire <= PROBABILITY_SCALE,
            marker <= FULL_WEIGHT,
            start.dim() == n,
            forall|d: Seq<bool>|
                extends(d, log) ==> #[trigger] sweep_pairs(nn, weights_of(start), 0, 0, m, d, 0)
                    == sweep_pairs(nn, weights_of(*g), row as int, 0, m, d, log.len() as int),
            only_marker(start, marker as int) ==> only_marker(*g, marker as int),
            rewire == 0 ==> g.same_weights(&start),
            marker != 0 ==> g.edge_count() <= start.edge_count(),
            marker != 0 && start.edge_count() > 0 ==> g.edge_count() > 0,
        decreases n - row,
    {
        let mut col: usize = 0;
        while col < row
            invariant
                g.wf(),
                g.dim() == n,
                nn == n,
                m == marker,
                col <= row < n,
                n <= u32::MAX,
                rewire <= PROBABILITY_SCALE,
                marker <= FULL_WEIGHT,
                start.dim() == n,
                forall|d: Seq<bool>|
                    extends(d, log) ==> #[trigger] sweep_pairs(nn, weights_of(start), 0, 0, m, d, 0)
                        == sweep_pairs(nn, weights_of(*g), row as int, col as int, m, d, log.len() as int),
                only_marker(start, marker as int) ==> only_marker(*g, marker as int),
                rewire == 0 ==> g.same_weights(&start),
                marker != 0 ==> g.edge_count() <= start.edge_count(),
                marker != 0 && start.edge_count() > 0 ==> g.edge_count() > 0,
            decreases row - col,
        {
            let ghost pair_start = *g;
            let ghost log_start = log;
            let value = g.get(row, col);
            if value == marker {
                let eligible = chance(rng, rewire, PROBABILITY_SCALE);
                proof {
                    log = log.push(eligible);
                }
                let ghost log_eligible = log;
                assert(log_eligible[log_start.len() as int] == eligible);
                if eligible {
                    let ghost scan_start = log.len() as int;
                    let mut new_col: usize = 0;
                    while new_col < n
                        invariant_except_break
                            *g == pair_start,
                            forall|d: Seq<bool>|
                                extends(d, log) ==> #[trigger] scan_candidates(
                                    nn,
                                    weights_of(pair_start),
                                    row as int,
                                    col as int,
                                    0,
                                    m,
                                    d,
                                    scan_start,
                                ) == scan_candidates(
                                    nn,
                                    weights_of(*g),
                                    row as int,
                                    col as int,
                                    new_col as int,
                                    m,
                                    d,
                                    log.len() as int,
                                ),
                        invariant
                            g.wf(),
                            g.dim() == n,
                            nn == n,
                            m == marker,
                            col < row < n,
                            n <= u32::MAX,
                            marker <= FULL_WEIGHT,
                            start.dim() == n,
                            rewire != 0,
                            extends(log, log_eligible),
                            log.len() >= scan_start,
                            scan_start == log_eligible.len(),
                            pair_start.weight(row as int, col as int) == marker,
                            only_marker(start, marker as int) ==> only_marker(*g, marker as int),
                            marker != 0 ==> g.edge_count() <= start.edge_count(),
                            marker != 0 && start.edge_count() > 0 ==> g.edge_count() > 0,
                        ensures
                            forall|d: Seq<bool>|
                                extends(d, log) ==> #[trigger] scan_candidates(
                                    nn,
                                    weights_of(pair_start),
                                    row as int,
                                    col as int,
                                    0,
                                    m,
                                    d,
                                    scan_start,
                                ) == (weights_of(*g), log.len() as int),
                            extends(log, log_eligible),
                        decreases n - new_col,
                    {
                        if new_col != row {
                            let ghost log_before = log;
                            let taken = chance(rng, 1, n as u32);
                            proof {
                                log = log.push(taken);
                                assert forall|d: Seq<bool>| extends(d, log) implies extends(
                                    d,
                                    log_before,
                                ) && d[log_before.len() as int] == taken by {
                                    assert(log[log_before.len() as int] == taken);
                                }
                                assert(extends(log, log_eligible)) by {
                                    assert forall|i: int| 0 <= i < log_eligible.len() implies log[i]
                                        == log_eligible[i] by {
                                        assert(log[i] == log_before[i]);
                                    }
                                }
                            }
                            if taken {
                                let ghost before = *g;
                                rewire_edge(g, row, col, new_col, marker);
                                assert(weights_of(*g) =~= moved_weights(
                                    weights_of(before),
                                    row as int,
                                    col as int,
                                    new_col as int,
                                    m,
                                ));
                                if marker != 0 {
                                    proof {
                                        lemma_rewire_edges(
                                            before,
                                            *g,
                                            row as int,
                                            col as int,
                                            new_col as int,
                                            marker as int,
                                        );
                                        lemma_nonempty_edges(*g, unordered(row as int, new_col as int));
                                    }
                                }
                                assert(only_marker(start, marker as int) ==> only_marker(
                                    *g,
                                    marker as int,
                                )) by {
                                    if only_marker(start, marker as int) {
                                        assert forall|i: int, j: int|
                                            0 <= i < n && 0 <= j < n implies #[trigger] g.weight(i, j)
                                            == 0 || g.weight(i, j) == marker by {
                                            assert(before.weight(i, j) == 0 || before.weight(i, j)
                                                == marker);
                                        }
                                    }
                                }
                                break;
                            }
                        }
                        new_col = new_col + 1;
                    }
                }
                proof {
                    assert forall|d: Seq<bool>| extends(d, log) implies extends(d, log_start)
                        && d[log_start.len() as int] == eligible by {
                        assert(log[log_start.len() as int] == log_eligible[log_start.len() as int]);
                    }
                }
            }
            col = col + 1;
        }
        row = row + 1;
    }
    proof {
        assert(extends(log, log));
    }
    Ghost(log)
}

/// Two graphs that are both the replay of the rewiring visits over the same
/// lattice and the same draw outcomes are equal: generation depends on the
/// draws alone.
pub proof fn lemma_same_draws_same_graph(
    g1: WeightedGraph,
    g2: WeightedGraph,
    k: int,
    marker: int,
    draws: Seq<bool>,
)
    requires
        g1.dim() == g2.dim(),
        weights_of(g1) == sweep_pairs(
            g1.dim() as int,
            lattice_weights(g1.dim() as int, k, marker),
            0,
            0,
            marker,
            draws,
            0,
        ).0,
        weights_of(g2) == sweep_pairs(
            g2.dim() as int,
            lattice_weights(g2.dim() as int, k, marker),
            0,
            0,
            marker,
            draws,
            0,
        ).0,
    ensures
        g1.same_weights(&g2),
{
    let w1 = weights_of(g1);
    let w2 = weights_of(g2);
    assert(w1 == w2);
    assert forall|i: int, j: int|
        0 <= i < g1.dim() && 0 <= j < g1.dim() implies #[trigger] g1.weight(i, j) == g2.weight(
        i,
        j,
    ) by {
        assert(w1(i, j) == w2(i, j));
        assert(w1(i, j) == g1.weight(i, j));
        assert(w2(i, j) == g2.weight(i, j));
    }
}

/// A small-world graph: the ring lattice of degree `k` on `n` nodes with
/// weight `marker` on each edge, then rewired with chance
/// `rewire / PROBABILITY_SCALE` per edge. Whatever the draws, the result is
/// the replay of the rewiring visits over the lattice for some sequence of
/// draw outcomes; it keeps at least one edge where the lattice had one, and
/// has none where the lattice had none.
pub fn watts_strogatz(n: usize, k: usize, rewire: u32, marker: u32, rng: &mut StdRng) -> (g:
    WeightedGraph)
    requires
        n * n <= usize::MAX,
        k % 2 == 0,
        k < n,
        rewire <= PROBABILITY_SCALE,
        marker <= FULL_WEIGHT,
    ensures
        g.wf(),
        g.dim() == n,
        only_marker(g, marker as int),
        rewire == 0 ==> is_ring_lattice(g, k as int, marker as int),
        exists|draws: Seq<bool>|
            {
                let r = #[trigger] sweep_pairs(
                    n as int,
                    lattice_weights(n as int, k as int, marker as int),
                    0,
                    0,
                    marker as int,
                    draws,
                    0,
                );
                r.1 == draws.len() && weights_of(g) == r.0
            },
        marker != 0 && k > 0 ==> g.edge_count() > 0,
        marker != 0 ==> g.edge_count() <= n * k / 2,
        k == 0 ==> forall|i: int, j: int| 0 <= i < n && 0 <= j < n ==> #[trigger] g.weight(i, j) == 0,
{
    let mut g = ring_lattice(n, k, marker);
    assert(n <= u32::MAX) by (nonlinear_arith)
        requires
            n * n <= usize::MAX,
            usize::MAX <= 0xffff_ffff_ffff_ffff,
    ;
    let ghost lattice = g;
    assert(weights_of(lattice) =~= lattice_weights(n as int, k as int, marker as int));
    if marker != 0 && k > 0 {
        assert(lattice.weight(1, 0) != 0);
        proof {
            lemma_nonempty_edges(lattice, (1, 0));
        }
    }
    if marker != 0 {
        proof {
            lemma_lattice_edge_count(lattice, k as int, marker as int);
        }
    }
    let draws = rewire_edges(&mut g, rng, rewire, marker);
    if k == 0 {
        assert forall|i: int, j: int| 0 <= i < n && 0 <= j < n implies #[trigger] g.weight(i, j)
            == 0 by {
            if marker != 0 && g.weight(i, j) != 0 {
                g.lemma_edges_finite();
                if i > j {
                    lemma_nonempty_edges(g, (i, j));
                } else {
                    assert(g.weight(j, i) != 0);
                    lemma_nonempty_edges(g, (j, i));
                }
            }
        }
    }
    g
}

} // verus!
