use vstd::prelude::*;

use crate::grid::{Grid, Localization, Terrain};

verus! {

/// `b` is one of the four orthogonal neighbours of `a`.
pub open spec fn adjacent(a: Localization, b: Localization) -> bool {
    let (ax, ay, bx, by) = (a.x as int, a.y as int, b.x as int, b.y as int);
    ||| (bx == ax - 1 && by == ay)
    ||| (bx == ax + 1 && by == ay)
    ||| (bx == ax && by == ay - 1)
    ||| (bx == ax && by == ay + 1)
}

/// The cell from which step `i` of a walk starting at `start` is taken.
pub open spec fn step_from(start: Localization, p: Seq<Localization>, i: int) -> Localization {
    if i == 0 {
        start
    } else {
        p[i - 1]
    }
}

/// `p` leads from `start` (not included) one orthogonal step at a time, through
/// passable cells only.
pub open spec fn is_walk(g: Grid, start: Localization, p: Seq<Localization>) -> bool {
    forall|i: int|
        0 <= i < p.len() ==> g.passable(p[i].x as int, p[i].y as int) && adjacent(
            step_from(start, p, i),
            #[trigger] p[i],
        )
}

/// Where a walk from `start` ends.
pub open spec fn walk_end(start: Localization, p: Seq<Localization>) -> Localization {
    if p.len() == 0 {
        start
    } else {
        p.last()
    }
}

/// Some walk leads from `start` to `target`.
pub open spec fn reachable(g: Grid, start: Localization, target: Localization) -> bool {
    exists|p: Seq<Localization>| is_walk(g, start, p) && walk_end(start, p) == target
}

/// The `d`-th neighbour of `c` in the fixed expansion order: up, down, left, right.
pub open spec fn nb(c: Localization, d: int) -> (int, int) {
    if d == 0 {
        (c.x - 1, c.y as int)
    } else if d == 1 {
        (c.x + 1, c.y as int)
    } else if d == 2 {
        (c.x as int, c.y - 1)
    } else {
        (c.x as int, c.y + 1)
    }
}

pub open spec fn unseen_in_row(r: Seq<bool>) -> nat
    decreases r.len(),
{
    if r.len() == 0 {
        0
    } else {
        unseen_in_row(r.drop_last()) + if r.last() {
            0nat
        } else {
            1nat
        }
    }
}

pub open spec fn unseen(v: Seq<Vec<bool>>) -> nat
    decreases v.len(),
{
    if v.len() == 0 {
        0
    } else {
        unseen(v.drop_last()) + unseen_in_row(v.last()@)
    }
}

proof fn lemma_mark_row(r: Seq<bool>, j: int)
    requires
        0 <= j < r.len(),
        !r[j],
    ensures
        unseen_in_row(r.update(j, true)) + 1 == unseen_in_row(r),
    decreases r.len(),
{
    if j == r.len() - 1 {
        assert(r.update(j, true).drop_last() =~= r.drop_last());
    } else {
        assert(r.update(j, true).drop_last() =~= r.drop_last().update(j, true));
        lemma_mark_row(r.drop_last(), j);
    }
}

proof fn lemma_mark(v: Seq<Vec<bool>>, i: int, j: int, row: Vec<bool>)
    requires
        0 <= i < v.len(),
        0 <= j < v[i]@.len(),
        !v[i]@[j],
        row@ == v[i]@.update(j, true),
    ensures
        unseen(v.update(i, row)) + 1 == unseen(v),
    decreases v.len(),
{
    if i == v.len() - 1 {
        assert(v.update(i, row).drop_last() =~= v.drop_last());
        lemma_mark_row(v[i]@, j);
    } else {
        assert(v.update(i, row).drop_last() =~= v.drop_last().update(i, row));
        lemma_mark(v.drop_last(), i, j, row);
    }
}

/// `dom` is closed under passable orthogonal steps.
pub open spec fn closed_under_steps(g: Grid, dom: Set<Localization>) -> bool {
    forall|a: Localization, b: Localization|
        #![trigger dom.contains(a), adjacent(a, b)]
        dom.contains(a) && adjacent(a, b) && g.passable(b.x as int, b.y as int) ==> dom.contains(b)
}

/// The cell reached after `k + 1` steps of a walk from inside a closed set
/// stays inside it.
proof fn lemma_walk_inside(
    g: Grid,
    dom: Set<Localization>,
    start: Localization,
    p: Seq<Localization>,
    k: int,
)
    requires
        dom.contains(start),
        closed_under_steps(g, dom),
        is_walk(g, start, p),
        0 <= k < p.len(),
    ensures
        dom.contains(p[k]),
    decreases k,
{
    if k > 0 {
        lemma_walk_inside(g, dom, start, p, k - 1);
    }
    let prev = step_from(start, p, k);
    assert(adjacent(prev, p[k]) && g.passable(p[k].x as int, p[k].y as int));
    assert(dom.contains(prev));
}

/// A walk whose first step is taken is still a walk, from that first cell, to
/// the same end.
pub proof fn lemma_walk_tail(g: Grid, start: Localization, p: Seq<Localization>)
    requires
        is_walk(g, start, p),
        p.len() > 0,
    ensures
        is_walk(g, p[0], p.drop_first()),
        walk_end(p[0], p.drop_first()) == walk_end(start, p),
        adjacent(start, p[0]),
        g.passable(p[0].x as int, p[0].y as int),
{
    let q = p.drop_first();
    assert forall|i: int| 0 <= i < q.len() implies g.passable(q[i].x as int, q[i].y as int)
        && adjacent(step_from(p[0], q, i), #[trigger] q[i]) by {
        assert(q[i] == p[i + 1]);
        assert(step_from(p[0], q, i) == step_from(start, p, i + 1));
    }
    assert(adjacent(step_from(start, p, 0), p[0]));
}

/// One passable step in front of a walk still makes a walk.
pub proof fn lemma_reach_through(g: Grid, a: Localization, b: Localization, t: Localization)
    requires
        adjacent(a, b),
        g.passable(b.x as int, b.y as int),
        reachable(g, b, t),
    ensures
        reachable(g, a, t),
{
    let p = choose|p: Seq<Localization>| is_walk(g, b, p) && walk_end(b, p) == t;
    let q = seq![b] + p;
    assert forall|i: int| 0 <= i < q.len() implies g.passable(q[i].x as int, q[i].y as int)
        && adjacent(step_from(a, q, i), #[trigger] q[i]) by {
        if i > 0 {
            assert(q[i] == p[i - 1]);
            assert(step_from(a, q, i) == step_from(b, p, i - 1));
        }
    }
    assert(walk_end(a, q) == t);
}

/// A rows x cols matrix holding `v` everywhere.
fn filled<T: Copy>(rows: u32, cols: u32, v: T) -> (m: Vec<Vec<T>>)
    ensures
        m@.len() == rows,
        forall|i: int| 0 <= i < rows ==> (#[trigger] m@[i])@.len() == cols,
        forall|i: int, j: int| 0 <= i < rows && 0 <= j < cols ==> (#[trigger] m@[i]@[j]) == v,
{
    let mut m: Vec<Vec<T>> = Vec::new();
    let mut i: u32 = 0;
    while i < rows
        invariant
            i <= rows,
            m@.len() == i,
            forall|a: int| 0 <= a < i ==> (#[trigger] m@[a])@.len() == cols,
            forall|a: int, b: int| 0 <= a < i && 0 <= b < cols ==> (#[trigger] m@[a]@[b]) == v,
        decreases rows - i,
    {
        let mut row: Vec<T> = Vec::new();
        let mut j: u32 = 0;
        while j < cols
            invariant
                j <= cols,
                row@.len() == j,
                forall|b: int| 0 <= b < j ==> (#[trigger] row@[b]) == v,
            decreases cols - j,
        {
            row.push(v);
            j = j + 1;
        }
        m.push(row);
        i = i + 1;
    }
    m
}

/// The `d`-th neighbour of `c`, when it lies on a rows x cols grid.
fn neighbor(c: Localization, d: usize, rows: u32, cols: u32) -> (r: Option<Localization>)
    requires
        d < 4,
    ensures
        (r matches Some(n) ==> (n.x as int, n.y as int) == nb(c, d as int) && n.x < rows && n.y
            < cols),
        (r is None ==> !(0 <= nb(c, d as int).0 < rows && 0 <= nb(c, d as int).1 < cols)),
{
    if d == 0 {
        if c.x >= 1 && c.x - 1 < rows && c.y < cols {
            Some(Localization { x: c.x - 1, y: c.y })
        } else {
            None
        }
    } else if d == 1 {
        if c.x < u32::MAX && c.x + 1 < rows && c.y < cols {
            Some(Localization { x: c.x + 1, y: c.y })
        } else {
            None
        }
    } else if d == 2 {
        if c.y >= 1 && c.x < rows && c.y - 1 < cols {
            Some(Localization { x: c.x, y: c.y - 1 })
        } else {
            None
        }
    } else {
        if c.y < u32::MAX && c.x < rows && c.y + 1 < cols {
            Some(Localization { x: c.x, y: c.y + 1 })
        } else {
            None
        }
    }
}

/// The location with coordinates `(x, y)`.
pub open spec fn at(x: int, y: int) -> Localization {
    Localization { x: x as u32, y: y as u32 }
}

/// Every passable neighbour of `c` has been reached.
spec fn expanded(g: Grid, pos: Map<Localization, int>, dist: Map<Localization, nat>, c: Localization) -> bool {
    forall|d: int|
        0 <= d < 4 && g.passable(#[trigger] nb(c, d).0, nb(c, d).1) ==> pos.dom().contains(
            at(nb(c, d).0, nb(c, d).1),
        ) && dist[at(nb(c, d).0, nb(c, d).1)] <= dist[c] + 1
}

/// What the search keeps true: the queue, the visited marks, the queue index
/// and the distance of each reached cell, and the parent links.
#[verifier::opaque]
spec fn search_ok(
    g: Grid,
    start: Localization,
    v: Seq<Vec<bool>>,
    par: Seq<Vec<Localization>>,
    q: Seq<Localization>,
    pos: Map<Localization, int>,
    dist: Map<Localization, nat>,
) -> bool {
    &&& v.len() == g.rows
    &&& par.len() == g.rows
    &&& forall|i: int| 0 <= i < g.rows ==> (#[trigger] v[i])@.len() == g.cols
    &&& forall|i: int| 0 <= i < g.rows ==> (#[trigger] par[i])@.len() == g.cols
    &&& q.len() >= 1
    &&& q[0] == start
    &&& forall|k: int|
        0 <= k < q.len() ==> g.in_bounds(q[k].x as int, q[k].y as int) && pos.dom().contains(
            #[trigger] q[k],
        ) && pos[q[k]] == k
    &&& forall|c: Localization| #[trigger]
        pos.dom().contains(c) ==> 0 <= pos[c] < q.len() && q[pos[c]] == c && dist.dom().contains(
            c,
        )
    &&& forall|c: Localization|
        #![trigger pos.dom().contains(c)]
        #![trigger v[c.x as int]@[c.y as int]]
        g.in_bounds(c.x as int, c.y as int) ==> (v[c.x as int]@[c.y as int] <==> pos.dom().contains(c))
    &&& dist[start] == 0
    &&& forall|k1: int, k2: int|
        #![trigger q[k1], q[k2]]
        0 <= k1 <= k2 < q.len() ==> dist[q[k1]] <= dist[q[k2]]
    &&& forall|c: Localization| #[trigger] pos.dom().contains(c) ==> dist[c] <= pos[c]
    &&& forall|c: Localization| #[trigger]
        pos.dom().contains(c) && c != start ==> {
            let pc = par[c.x as int]@[c.y as int];
            &&& pos.dom().contains(pc)
            &&& adjacent(pc, c)
            &&& g.passable(c.x as int, c.y as int)
            &&& dist[c] == dist[pc] + 1
        }
}

/// Reaching a new cell `n` from `cur` keeps the search state consistent and
/// leaves one unvisited cell less.
proof fn lemma_visit(
    g: Grid,
    start: Localization,
    v0: Seq<Vec<bool>>,
    v1: Seq<Vec<bool>>,
    par0: Seq<Vec<Localization>>,
    par1: Seq<Vec<Localization>>,
    q0: Seq<Localization>,
    pos0: Map<Localization, int>,
    dist0: Map<Localization, nat>,
    n: Localization,
    cur: Localization,
)
    requires
        search_ok(g, start, v0, par0, q0, pos0, dist0),
        pos0.dom().contains(cur),
        g.passable(n.x as int, n.y as int),
        adjacent(cur, n),
        !pos0.dom().contains(n),
        v1 == v0.update(n.x as int, v1[n.x as int]),
        v1[n.x as int]@ == v0[n.x as int]@.update(n.y as int, true),
        par1 == par0.update(n.x as int, par1[n.x as int]),
        par1[n.x as int]@ == par0[n.x as int]@.update(n.y as int, cur),
        forall|k: int| 0 <= k < q0.len() ==> dist0[#[trigger] q0[k]] <= dist0[cur] + 1,
    ensures
        search_ok(
            g,
            start,
            v1,
            par1,
            q0.push(n),
            pos0.insert(n, q0.len() as int),
            dist0.insert(n, dist0[cur] + 1),
        ),
        unseen(v1) + 1 == unseen(v0),
{
    reveal(search_ok);
    assert(!v0[n.x as int]@[n.y as int]);
    lemma_mark(v0, n.x as int, n.y as int, v1[n.x as int]);
    let q1 = q0.push(n);
    let pos = pos0.insert(n, q0.len() as int);
    let dist = dist0.insert(n, dist0[cur] + 1);
    assert forall|k: int| 0 <= k < q1.len() implies g.in_bounds(q1[k].x as int, q1[k].y as int)
        && pos.dom().contains(#[trigger] q1[k]) && pos[q1[k]] == k by {
        if k < q0.len() {
            assert(q1[k] == q0[k]);
            assert(pos0.dom().contains(q0[k]));
        }
    }
    assert forall|c: Localization|
        #![trigger pos.dom().contains(c)]
        #![trigger v1[c.x as int]@[c.y as int]]
        g.in_bounds(c.x as int, c.y as int) implies (v1[c.x as int]@[c.y as int] <==> pos.dom().contains(c)) by {
        if c.x == n.x {
            if c.y == n.y {
                assert(c == n);
            } else {
                assert(v1[c.x as int]@[c.y as int] == v0[c.x as int]@[c.y as int]);
            }
        } else {
            assert(v1[c.x as int] == v0[c.x as int]);
        }
        assert(pos.dom().contains(c) == (pos0.dom().contains(c) || c == n));
    }
    assert forall|c: Localization| #[trigger]
        pos.dom().contains(c) && c != start implies {
            let pc = par1[c.x as int]@[c.y as int];
            &&& pos.dom().contains(pc)
            &&& adjacent(pc, c)
            &&& g.passable(c.x as int, c.y as int)
            &&& dist[c] == dist[pc] + 1
        } by {
        if c == n {
            assert(par1[c.x as int]@[c.y as int] == cur);
        } else {
            assert(pos0.dom().contains(c));
            if c.x == n.x {
                assert(c.y != n.y);
            }
            assert(par1[c.x as int]@[c.y as int] == par0[c.x as int]@[c.y as int]);
        }
    }
    assert forall|c: Localization| #[trigger] pos.dom().contains(c) implies 0 <= pos[c] < q1.len()
        && q1[pos[c]] == c && dist.dom().contains(c) by {
        if c != n {
            assert(q1[pos0[c]] == q0[pos0[c]]);
        }
    }
    assert forall|i: int| 0 <= i < g.rows implies (#[trigger] v1[i])@.len() == g.cols by {
        if i != n.x {
            assert(v1[i] == v0[i]);
        }
    }
    assert forall|c: Localization| #[trigger] pos.dom().contains(c) implies dist[c] <= pos[c] by {
        if c != n {
            assert(pos0.dom().contains(c));
        } else {
            assert(pos0[cur] < q0.len());
        }
    }
    assert forall|k1: int, k2: int|
        #![trigger q1[k1], q1[k2]]
        0 <= k1 <= k2 < q1.len() implies dist[q1[k1]] <= dist[q1[k2]] by {
        if k2 < q0.len() {
            assert(q1[k1] == q0[k1] && q1[k2] == q0[k2]);
            assert(pos0.dom().contains(q0[k1]) && pos0.dom().contains(q0[k2]));
        } else if k1 < q0.len() {
            assert(q1[k1] == q0[k1]);
            assert(pos0.dom().contains(q0[k1]));
        }
    }
    assert forall|i: int| 0 <= i < g.rows implies (#[trigger] par1[i])@.len() == g.cols by {
        if i != n.x {
            assert(par1[i] == par0[i]);
        }
    }
}


/// The search's state: visited marks, parent links, queue, index of the next
/// cell to dequeue, and whether the target has been dequeued.
pub type Frontier = (Seq<Seq<bool>>, Seq<Seq<Localization>>, Seq<Localization>, int, bool);

/// The rows of a matrix of vectors, as sequences.
pub open spec fn rows_of<T>(m: Seq<Vec<T>>) -> Seq<Seq<T>> {
    m.map_values(|r: Vec<T>| r@)
}

/// The state before the first step: only `start` visited and queued.
pub open spec fn frontier_init(g: Grid, start: Localization) -> Frontier {
    (
        Seq::new(g.rows as nat, |i: int| Seq::new(g.cols as nat, |j: int| i == start.x && j == start.y)),
        Seq::new(g.rows as nat, |i: int| Seq::new(g.cols as nat, |j: int| start)),
        seq![start],
        0,
        false,
    )
}

/// Looks at the `d`-th neighbour of `cur`: when it is on the grid, passable
/// and not yet visited, it is marked, linked to `cur`, and queued.
pub open spec fn frontier_visit(g: Grid, st: Frontier, cur: Localization, d: int) -> Frontier {
    let (nx, ny) = nb(cur, d);
    if 0 <= nx < g.rows && 0 <= ny < g.cols && g.cell(nx, ny).terrain != Terrain::Obstacle && !st.0[nx][ny] {
        (
            st.0.update(nx, st.0[nx].update(ny, true)),
            st.1.update(nx, st.1[nx].update(ny, cur)),
            st.2.push(at(nx, ny)),
            st.3,
            st.4,
        )
    } else {
        st
    }
}

/// The first `d` neighbours of `cur` looked at, in order.
pub open spec fn frontier_expand(g: Grid, st: Frontier, cur: Localization, d: nat) -> Frontier
    decreases d,
{
    if d == 0 {
        st
    } else {
        frontier_visit(g, frontier_expand(g, st, cur, (d - 1) as nat), cur, d - 1)
    }
}

/// One step: dequeue a cell; stop there if it is the target, else look at
/// its four neighbours.
pub open spec fn frontier_step(g: Grid, target: Localization, st: Frontier) -> Frontier {
    let cur = st.2[st.3];
    if cur == target {
        (st.0, st.1, st.2, st.3 + 1, true)
    } else {
        frontier_expand(g, (st.0, st.1, st.2, st.3 + 1, st.4), cur, 4)
    }
}

/// Steps until the queue is exhausted or the target dequeued, at most `fuel` times.
pub open spec fn frontier_run(g: Grid, target: Localization, st: Frontier, fuel: nat) -> Frontier
    decreases fuel,
{
    if fuel == 0 || !(st.3 < st.2.len() && !st.4) {
        st
    } else {
        frontier_run(g, target, frontier_step(g, target, st), (fuel - 1) as nat)
    }
}

/// The walk to `cur` read back along the parent links, at most `fuel` links.
pub open spec fn trace_back(par: Seq<Seq<Localization>>, start: Localization, cur: Localization, fuel: nat) -> Seq<Localization>
    decreases fuel,
{
    if fuel == 0 || cur == start {
        Seq::empty()
    } else {
        trace_back(par, start, par[cur.x as int][cur.y as int], (fuel - 1) as nat).push(cur)
    }
}

/// The path that breadth-first search with the fixed expansion order finds:
/// a function of the grid and the two end points alone.
pub open spec fn bfs_path(g: Grid, start: Localization, target: Localization) -> Option<Seq<Localization>> {
    let fuel = (g.rows * g.cols + 1) as nat;
    let fin = frontier_run(g, target, frontier_init(g, start), fuel);
    if fin.4 {
        Some(trace_back(fin.1, start, target, fuel))
    } else {
        None
    }
}

proof fn lemma_row_all_false(r: Seq<bool>)
    requires
        forall|i: int| 0 <= i < r.len() ==> !r[i],
    ensures
        unseen_in_row(r) == r.len(),
    decreases r.len(),
{
    if r.len() > 0 {
        lemma_row_all_false(r.drop_last());
    }
}

proof fn lemma_unseen_bound(v: Seq<Vec<bool>>, cols: nat)
    requires
        forall|i: int| 0 <= i < v.len() ==> (#[trigger] v[i])@.len() == cols,
    ensures
        unseen(v) <= v.len() * cols,
    decreases v.len(),
{
    if v.len() > 0 {
        lemma_unseen_bound(v.drop_last(), cols);
        lemma_row_unseen_bound(v.last()@);
        let n = v.len();
        assert((n - 1) * cols + cols == n * cols) by (nonlinear_arith);
    }
}

proof fn lemma_row_unseen_bound(r: Seq<bool>)
    ensures
        unseen_in_row(r) <= r.len(),
    decreases r.len(),
{
    if r.len() > 0 {
        lemma_row_unseen_bound(r.drop_last());
    }
}

proof fn lemma_unseen_all_but_one(v: Seq<Vec<bool>>, cols: nat, sx: int, sy: int)
    requires
        forall|i: int| 0 <= i < v.len() ==> (#[trigger] v[i])@.len() == cols,
        forall|i: int, j: int| 0 <= i < v.len() && 0 <= j < cols ==> (#[trigger] v[i]@[j]) == (i == sx && j == sy),
        0 <= sx < v.len(),
        0 <= sy < cols,
    ensures
        unseen(v) + 1 == v.len() * cols,
    decreases v.len(),
{
    let n = v.len();
    if n - 1 == sx {
        lemma_unseen_all_false(v.drop_last(), cols);
        let r = v.last()@;
        assert(r.update(sy, false) =~= Seq::new(cols, |j: int| false));
        lemma_row_all_false(r.update(sy, false));
        lemma_mark_row(r.update(sy, false), sy);
        assert(r.update(sy, false).update(sy, true) =~= r);
    } else {
        lemma_unseen_all_but_one(v.drop_last(), cols, sx, sy);
        lemma_row_all_false(v.last()@);
    }
    assert((n - 1) * cols + cols == n * cols) by (nonlinear_arith);
}

proof fn lemma_unseen_all_false(v: Seq<Vec<bool>>, cols: nat)
    requires
        forall|i: int| 0 <= i < v.len() ==> (#[trigger] v[i])@.len() == cols,
        forall|i: int, j: int| 0 <= i < v.len() && 0 <= j < cols ==> !(#[trigger] v[i]@[j]),
    ensures
        unseen(v) == v.len() * cols,
    decreases v.len(),
{
    if v.len() > 0 {
        lemma_unseen_all_false(v.drop_last(), cols);
        lemma_row_all_false(v.last()@);
        let n = v.len();
        assert((n - 1) * cols + cols == n * cols) by (nonlinear_arith);
    }
}

/// Reads the facts that the search state holds, one group at a time.
proof fn lemma_seen(
    g: Grid,
    start: Localization,
    v: Seq<Vec<bool>>,
    par: Seq<Vec<Localization>>,
    q: Seq<Localization>,
    pos: Map<Localization, int>,
    dist: Map<Localization, nat>,
    c: Localization,
)
    requires
        search_ok(g, start, v, par, q, pos, dist),
        g.in_bounds(c.x as int, c.y as int),
    ensures
        v[c.x as int]@[c.y as int] <==> pos.dom().contains(c),
{
    reveal(search_ok);
}

proof fn lemma_queued(
    g: Grid,
    start: Localization,
    v: Seq<Vec<bool>>,
    par: Seq<Vec<Localization>>,
    q: Seq<Localization>,
    pos: Map<Localization, int>,
    dist: Map<Localization, nat>,
)
    requires
        search_ok(g, start, v, par, q, pos, dist),
    ensures
        q.len() >= 1,
        q[0] == start,
        forall|k: int|
            0 <= k < q.len() ==> g.in_bounds(q[k].x as int, q[k].y as int) && pos.dom().contains(
                #[trigger] q[k],
            ) && pos[q[k]] == k,
        forall|c: Localization| #[trigger]
            pos.dom().contains(c) ==> 0 <= pos[c] < q.len() && q[pos[c]] == c,
        forall|k1: int, k2: int|
            #![trigger q[k1], q[k2]]
            0 <= k1 <= k2 < q.len() ==> dist[q[k1]] <= dist[q[k2]],
        dist[start] == 0,
        forall|c: Localization| #[trigger] pos.dom().contains(c) ==> dist[c] <= pos[c],
{
    reveal(search_ok);
}

proof fn lemma_parent(
    g: Grid,
    start: Localization,
    v: Seq<Vec<bool>>,
    par: Seq<Vec<Localization>>,
    q: Seq<Localization>,
    pos: Map<Localization, int>,
    dist: Map<Localization, nat>,
    c: Localization,
)
    requires
        search_ok(g, start, v, par, q, pos, dist),
        pos.dom().contains(c),
        c != start,
    ensures
        g.in_bounds(c.x as int, c.y as int),
        pos.dom().contains(par[c.x as int]@[c.y as int]),
        adjacent(par[c.x as int]@[c.y as int], c),
        g.passable(c.x as int, c.y as int),
        dist[c] == dist[par[c.x as int]@[c.y as int]] + 1,
{
    reveal(search_ok);
    assert(q[pos[c]] == c);
}

/// Once the target has been dequeued, no walk to a cell is shorter than the
/// distance that the search recorded for it, up to the target's distance.
proof fn lemma_walk_long(
    g: Grid,
    start: Localization,
    target: Localization,
    v: Seq<Vec<bool>>,
    par: Seq<Vec<Localization>>,
    queue: Seq<Localization>,
    pos: Map<Localization, int>,
    dist: Map<Localization, nat>,
    head: int,
    p: Seq<Localization>,
    i: int,
)
    requires
        search_ok(g, start, v, par, queue, pos, dist),
        1 <= head <= queue.len(),
        queue[head - 1] == target,
        forall|k: int| 0 <= k < head - 1 ==> expanded(g, pos, dist, #[trigger] queue[k]),
        is_walk(g, start, p),
        0 <= i < p.len(),
        i + 1 < dist[target],
    ensures
        pos.dom().contains(p[i]),
        dist[p[i]] <= i + 1,
    decreases i,
{
    lemma_queued(g, start, v, par, queue, pos, dist);
    let prev = step_from(start, p, i);
    if i > 0 {
        lemma_walk_long(g, start, target, v, par, queue, pos, dist, head, p, i - 1);
    } else {
        assert(queue[0] == start);
    }
    assert(pos.dom().contains(prev) && dist[prev] <= i);
    let k = pos[prev];
    assert(queue[k] == prev);
    if k >= head - 1 {
        assert(dist[queue[head - 1]] <= dist[queue[k]]);
    }
    assert(expanded(g, pos, dist, prev));
    let b = p[i];
    assert(adjacent(prev, b) && g.passable(b.x as int, b.y as int));
    let d: int = if b.x as int == prev.x - 1 {
        0
    } else if b.x as int == prev.x + 1 {
        1
    } else if b.y as int == prev.y - 1 {
        2
    } else {
        3
    };
    assert(nb(prev, d) == (b.x as int, b.y as int));
    assert(g.passable(nb(prev, d).0, nb(prev, d).1));
    assert(at(b.x as int, b.y as int) == b);
}

/// Breadth-first search from `start` to `target` over the passable cells,
/// expanding neighbours up, down, left, right. The path leaves `start` out and
/// ends at `target`; it is empty when the two coincide, and `None` when no walk
/// leads there. No walk is shorter, and the result is exactly `bfs_path`.
pub fn find_shortest_path(grid: &Grid, start: Localization, target: Localization) -> (r: Option<
    Vec<Localization>,
>)
    requires
        grid.wf(),
        grid.in_bounds(start.x as int, start.y as int),
    ensures
        r is Some <==> reachable(*grid, start, target),
        (r matches Some(p) ==> is_walk(*grid, start, p@) && walk_end(start, p@) == target),
        (r matches Some(p) ==> forall|q: Seq<Localization>|
            #[trigger] is_walk(*grid, start, q) && walk_end(start, q) == target ==> p@.len() <= q.len()),
        (start == target ==> (r matches Some(p) && p@.len() == 0)),
        r is Some <==> bfs_path(*grid, start, target) is Some,
        (r matches Some(p) ==> bfs_path(*grid, start, target) == Some(p@)),
{
    let rows = grid.rows;
    let cols = grid.cols;
    let mut visited = filled(rows, cols, false);
    let mut parent = filled(rows, cols, start);
    let mut queue: Vec<Localization> = Vec::new();
    visited[start.x as usize][start.y as usize] = true;
    queue.push(start);
    let ghost mut pos: Map<Localization, int> = map![start => 0int];
    let ghost mut dist: Map<Localization, nat> = map![start => 0nat];
    proof {
        reveal(search_ok);
        assert forall|c: Localization|
            #![trigger pos.dom().contains(c)]
            #![trigger visited@[c.x as int]@[c.y as int]]
            grid.in_bounds(c.x as int, c.y as int) implies (visited@[c.x as int]@[c.y as int]
                <==> pos.dom().contains(c)) by {
            if c.x == start.x {
                if c.y == start.y {
                    assert(c == start);
                }
            }
        }
        assert(search_ok(*grid, start, visited@, parent@, queue@, pos, dist));
        let init = frontier_init(*grid, start);
        assert forall|i: int| 0 <= i < rows implies #[trigger] rows_of(visited@)[i] =~= init.0[i] by {}
        assert forall|i: int| 0 <= i < rows implies #[trigger] rows_of(parent@)[i] =~= init.1[i] by {}
        assert(rows_of(visited@) =~= init.0);
        assert(rows_of(parent@) =~= init.1);
        assert(queue@ =~= init.2);
        lemma_unseen_all_but_one(visited@, cols as nat, start.x as int, start.y as int);
    }
    let ghost fuel: nat = (rows * cols + 1) as nat;
    let ghost fin = frontier_run(*grid, target, frontier_init(*grid, start), fuel);
    let mut head: usize = 0;
    let mut found = false;
    while head < queue.len() && !found
        invariant
            grid.wf(),
            rows == grid.rows,
            cols == grid.cols,
            grid.in_bounds(start.x as int, start.y as int),
            visited@.len() == rows,
            forall|i: int| 0 <= i < rows ==> (#[trigger] visited@[i])@.len() == cols,
            parent@.len() == rows,
            forall|i: int| 0 <= i < rows ==> (#[trigger] parent@[i])@.len() == cols,
            search_ok(*grid, start, visited@, parent@, queue@, pos, dist),
            head <= queue@.len(),
            found ==> head >= 1 && queue@[head - 1] == target,
            forall|k: int|
                0 <= k < head && !(found && k == head - 1) ==> expanded(
                    *grid,
                    pos,
                    dist,
                    #[trigger] queue@[k],
                ),
            forall|k: int|
                0 <= k < head && #[trigger] queue@[k] == target ==> found && k == head - 1,
            head == 0 ==> queue@.len() == 1,
            head >= 1 ==> forall|k: int| 0 <= k < queue@.len() ==> dist[#[trigger] queue@[k]] <= dist[queue@[head - 1]] + 1,
            fuel == rows * cols + 1,
            fin == frontier_run(*grid, target, frontier_init(*grid, start), fuel),
            unseen(visited@) + queue@.len() == rows * cols,
            frontier_run(*grid, target, (rows_of(visited@), rows_of(parent@), queue@, head as int, found), (fuel - head) as nat) == fin,
        decreases unseen(visited@), queue@.len() - head,
    {
        let cur = queue[head];
        let ghost st0: Frontier = (rows_of(visited@), rows_of(parent@), queue@, head as int, found);
        proof {
            lemma_queued(*grid, start, visited@, parent@, queue@, pos, dist);
            if head >= 1 {
                assert(dist[queue@[head - 1]] <= dist[queue@[head as int]]);
            }
            assert((fuel - head) as nat > 0);
            assert(frontier_run(*grid, target, st0, (fuel - head) as nat) == frontier_run(
                *grid,
                target,
                frontier_step(*grid, target, st0),
                (fuel - head - 1) as nat,
            ));
        }
        head = head + 1;
        if cur.x == target.x && cur.y == target.y {
            found = true;
            proof {
                assert(cur == target);
            }
        } else {
            let ghost u0 = unseen(visited@);
            let ghost l0 = queue@.len();
            let ghost st0_visited = visited@;
            let mut d: usize = 0;
            while d < 4
                invariant
                    grid.wf(),
                    rows == grid.rows,
                    cols == grid.cols,
                    grid.in_bounds(start.x as int, start.y as int),
                    visited@.len() == rows,
                    forall|i: int| 0 <= i < rows ==> (#[trigger] visited@[i])@.len() == cols,
                    parent@.len() == rows,
                    forall|i: int| 0 <= i < rows ==> (#[trigger] parent@[i])@.len() == cols,
                    search_ok(*grid, start, visited@, parent@, queue@, pos, dist),
                    pos.dom().contains(cur),
                    1 <= head <= queue@.len(),
                    !found,
                    cur == queue@[head - 1],
                    cur != target,
                    d <= 4,
                    forall|k: int|
                        0 <= k < head - 1 ==> expanded(*grid, pos, dist, #[trigger] queue@[k]),
                    forall|k: int|
                        0 <= k < head && #[trigger] queue@[k] == target ==> false,
                    forall|e: int|
                        0 <= e < d && grid.passable(#[trigger] nb(cur, e).0, nb(cur, e).1)
                            ==> pos.dom().contains(at(nb(cur, e).0, nb(cur, e).1))
                            && dist[at(nb(cur, e).0, nb(cur, e).1)] <= dist[cur] + 1,
                    forall|k: int| 0 <= k < queue@.len() ==> dist[#[trigger] queue@[k]] <= dist[cur] + 1,
                    (rows_of(visited@), rows_of(parent@), queue@, head as int, found) == frontier_expand(
                        *grid,
                        (st0.0, st0.1, st0.2, st0.3 + 1, st0.4),
                        cur,
                        d as nat,
                    ),
                    st0.2[st0.3] == cur,
                    unseen(visited@) + queue@.len() == unseen(st0_visited) + st0.2.len(),
                    unseen(visited@) < u0 || (unseen(visited@) == u0 && queue@.len() == l0),
                decreases 4 - d,
            {
                let ghost pos_before = pos;
                let ghost dist_before = dist;
                let ghost stb: Frontier = (rows_of(visited@), rows_of(parent@), queue@, head as int, found);
                let ghost ub = unseen(visited@);
                match neighbor(cur, d, rows, cols) {
                    Some(n) => {
                        proof {
                            lemma_seen(*grid, start, visited@, parent@, queue@, pos, dist, n);
                            assert(n == at(n.x as int, n.y as int));
                        }
                        if grid.cells[n.x as usize][n.y as usize].terrain != Terrain::Obstacle
                            && !visited[n.x as usize][n.y as usize] {
                            let ghost q0 = queue@;
                            let ghost v0 = visited@;
                            let ghost par0 = parent@;
                            visited[n.x as usize][n.y as usize] = true;
                            parent[n.x as usize][n.y as usize] = cur;
                            queue.push(n);
                            proof {
                                assert(visited@ =~= v0.update(n.x as int, visited@[n.x as int]));
                                assert(parent@ =~= par0.update(n.x as int, parent@[n.x as int]));
                                assert(adjacent(cur, n));
                                lemma_visit(*grid, start, v0, visited@, par0, parent@, q0, pos, dist, n, cur);
                                let dc = dist[cur];
                                assert(queue@ == q0.push(n));
                                pos = pos.insert(n, q0.len() as int);
                                dist = dist.insert(n, dc + 1);
                                assert forall|i: int| 0 <= i < rows implies (#[trigger] visited@[i])@.len() == cols by {
                                    if i != n.x {
                                        assert(visited@[i] == v0[i]);
                                    }
                                }
                                assert forall|i: int| 0 <= i < rows implies (#[trigger] parent@[i])@.len() == cols by {
                                    if i != n.x {
                                        assert(parent@[i] == par0[i]);
                                    }
                                }
                                assert(queue@[head - 1] == q0[head - 1]);
                                let nx = n.x as int;
                                let ny = n.y as int;
                                assert forall|i: int| 0 <= i < rows implies #[trigger] rows_of(visited@)[i]
                                    =~= stb.0.update(nx, stb.0[nx].update(ny, true))[i] by {
                                    if i != nx {
                                        assert(visited@[i] == v0[i]);
                                    }
                                }
                                assert(rows_of(visited@) =~= stb.0.update(nx, stb.0[nx].update(ny, true)));
                                assert forall|i: int| 0 <= i < rows implies #[trigger] rows_of(parent@)[i]
                                    =~= stb.1.update(nx, stb.1[nx].update(ny, cur))[i] by {
                                    if i != nx {
                                        assert(parent@[i] == par0[i]);
                                    }
                                }
                                assert(rows_of(parent@) =~= stb.1.update(nx, stb.1[nx].update(ny, cur)));
                            }
                        }
                    },
                    None => {},
                }
                proof {
                    assert((rows_of(visited@), rows_of(parent@), queue@, head as int, found)
                        == frontier_visit(*grid, stb, cur, d as int));
                    assert(frontier_expand(
                        *grid,
                        (st0.0, st0.1, st0.2, st0.3 + 1, st0.4),
                        cur,
                        (d + 1) as nat,
                    ) == frontier_visit(
                        *grid,
                        frontier_expand(*grid, (st0.0, st0.1, st0.2, st0.3 + 1, st0.4), cur, d as nat),
                        cur,
                        d as int,
                    ));
                }
                proof {
                    lemma_queued(*grid, start, visited@, parent@, queue@, pos, dist);
                    assert forall|k: int|
                        0 <= k < head - 1 implies expanded(*grid, pos, dist, #[trigger] queue@[k]) by {
                        assert(expanded(*grid, pos_before, dist_before, queue@[k]));
                        assert(pos_before.dom().contains(queue@[k]));
                        assert forall|e: int|
                            0 <= e < 4 && grid.passable(#[trigger] nb(queue@[k], e).0, nb(queue@[k], e).1)
                                implies pos.dom().contains(at(nb(queue@[k], e).0, nb(queue@[k], e).1))
                                && dist[at(nb(queue@[k], e).0, nb(queue@[k], e).1)] <= dist[queue@[k]] + 1 by {
                            assert(pos_before.dom().contains(at(nb(queue@[k], e).0, nb(queue@[k], e).1)));
                        }
                    }
                    assert forall|e: int|
                        0 <= e < d + 1 && grid.passable(#[trigger] nb(cur, e).0, nb(cur, e).1)
                            implies pos.dom().contains(at(nb(cur, e).0, nb(cur, e).1))
                            && dist[at(nb(cur, e).0, nb(cur, e).1)] <= dist[cur] + 1 by {
                        if e < d {
                            assert(pos_before.dom().contains(at(nb(cur, e).0, nb(cur, e).1)));
                        } else {
                            let m = at(nb(cur, e).0, nb(cur, e).1);
                            lemma_seen(*grid, start, visited@, parent@, queue@, pos, dist, m);
                            let km = pos[m];
                            assert(queue@[km] == m);
                        }
                    }
                }
                d = d + 1;
            }
            proof {
                assert(expanded(*grid, pos, dist, cur));
            }
        }
    }
    proof {
        assert(fin == (rows_of(visited@), rows_of(parent@), queue@, head as int, found));
    }
    if found {
        let ghost mut suffix: Seq<Localization> = Seq::empty();
        let mut rev: Vec<Localization> = Vec::new();
        let mut cur = target;
        proof {
            lemma_queued(*grid, start, visited@, parent@, queue@, pos, dist);
            assert forall|q: Seq<Localization>|
                #[trigger] is_walk(*grid, start, q) && walk_end(start, q) == target implies dist[target] <= q.len() by {
                if q.len() < dist[target] {
                    if q.len() == 0 {
                        assert(target == start);
                    } else {
                        lemma_walk_long(*grid, start, target, visited@, parent@, queue@, pos, dist, head as int, q, q.len() - 1);
                    }
                }
            }
        }
        let ghost dt = dist[target];
        proof {
            assert(dt <= pos[target]);
            assert(pos[target] < queue@.len());
            lemma_unseen_bound(visited@, cols as nat);
            assert(dt < fuel);
        }
        while !(cur.x == start.x && cur.y == start.y)
            invariant
                suffix.len() + dist[cur] == dt,
                dt < fuel,
                fin.1 == rows_of(parent@),
                trace_back(fin.1, start, target, fuel) == trace_back(fin.1, start, cur, (fuel - suffix.len()) as nat) + suffix,
                grid.wf(),
                parent@.len() == grid.rows,
                forall|i: int| 0 <= i < grid.rows ==> (#[trigger] parent@[i])@.len() == grid.cols,
                search_ok(*grid, start, visited@, parent@, queue@, pos, dist),
                pos.dom().contains(cur),
                start == target ==> cur == start && suffix.len() == 0,
                is_walk(*grid, cur, suffix),
                walk_end(cur, suffix) == target,
                rev@.len() == suffix.len(),
                forall|i: int| 0 <= i < rev@.len() ==> #[trigger] rev@[i] == suffix[rev@.len() - 1 - i],
            decreases dist[cur],
        {
            proof {
                assert(cur != start);
                lemma_parent(*grid, start, visited@, parent@, queue@, pos, dist, cur);
            }
            rev.push(cur);
            let p = parent[cur.x as usize][cur.y as usize];
            proof {
                let s2 = seq![cur] + suffix;
                assert forall|i: int| 0 <= i < s2.len() implies grid.passable(s2[i].x as int, s2[i].y as int)
                    && adjacent(step_from(p, s2, i), #[trigger] s2[i]) by {
                    if i > 0 {
                        assert(s2[i] == suffix[i - 1]);
                        assert(step_from(p, s2, i) == step_from(cur, suffix, i - 1));
                    }
                }
                assert(walk_end(p, s2) == target);
                let f = (fuel - suffix.len()) as nat;
                assert(f > 0);
                assert(fin.1[cur.x as int][cur.y as int] == p);
                assert(trace_back(fin.1, start, cur, f) == trace_back(fin.1, start, p, (f - 1) as nat).push(cur));
                assert(trace_back(fin.1, start, p, (f - 1) as nat).push(cur) + suffix
                    =~= trace_back(fin.1, start, p, (f - 1) as nat) + s2);
                suffix = s2;
            }
            cur = p;
        }
        let n = rev.len();
        let mut out: Vec<Localization> = Vec::new();
        let mut k: usize = 0;
        while k < n
            invariant
                n == rev@.len(),
                rev@.len() == suffix.len(),
                forall|i: int| 0 <= i < rev@.len() ==> #[trigger] rev@[i] == suffix[rev@.len() - 1 - i],
                k <= n,
                out@.len() == k,
                forall|i: int| 0 <= i < k ==> #[trigger] out@[i] == suffix[i],
            decreases n - k,
        {
            out.push(rev[n - 1 - k]);
            k = k + 1;
        }
        assert(out@ =~= suffix);
        proof {
            lemma_queued(*grid, start, visited@, parent@, queue@, pos, dist);
            assert(trace_back(fin.1, start, target, fuel) =~= suffix);
        }
        Some(out)
    } else {
        proof {
            lemma_queued(*grid, start, visited@, parent@, queue@, pos, dist);
            assert(closed_under_steps(*grid, pos.dom())) by {
                assert forall|a: Localization, b: Localization|
                    #![trigger pos.dom().contains(a), adjacent(a, b)]
                    pos.dom().contains(a) && adjacent(a, b) && grid.passable(b.x as int, b.y as int)
                        implies pos.dom().contains(b) by {
                    let k = pos[a];
                    assert(queue@[k] == a);
                    assert(expanded(*grid, pos, dist, a));
                    let d: int = if b.x as int == a.x - 1 {
                        0
                    } else if b.x as int == a.x + 1 {
                        1
                    } else if b.y as int == a.y - 1 {
                        2
                    } else {
                        3
                    };
                    assert(nb(a, d) == (b.x as int, b.y as int));
                    assert(grid.passable(nb(a, d).0, nb(a, d).1));
                    assert(at(b.x as int, b.y as int) == b);
                }
            }
            assert forall|p: Seq<Localization>| is_walk(*grid, start, p) implies walk_end(start, p)
                != target by {
                if p.len() > 0 {
                    lemma_walk_inside(*grid, pos.dom(), start, p, p.len() - 1);
                    let k = pos[p.last()];
                    assert(queue@[k] == p.last());
                } else {
                    assert(queue@[0] == start);
                }
            }
        }
        None
    }
}

} // verus!
