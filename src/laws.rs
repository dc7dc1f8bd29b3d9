use vstd::prelude::*;

use crate::game::{layout_cell, Game};
use crate::grid::{Grid, Localization};
use crate::pathfinder::{
    bfs_path, frontier_expand, frontier_init, frontier_run, frontier_step, frontier_visit, Frontier,
};
use crate::resources::{extracted_from, split_by_kind, Resource, ResourceKind};

verus! {

/// In every well-formed game, which every operation keeps, each deposit holds
/// between nothing and what it started with.
pub proof fn deposit_quantities_stay_bounded(g: Game)
    requires
        g.wf(),
    ensures
        forall|k: int|
            0 <= k < g.resources@.len() ==> 0 <= (#[trigger] g.resources@[k]).remaining_quantity
                <= g.resources@[k].initial_quantity,
{
    assert forall|k: int| 0 <= k < g.resources@.len() implies 0 <= (#[trigger] g.resources@[k]).remaining_quantity
        <= g.resources@[k].initial_quantity by {
        assert(g.resources@[k].wf());
    }
}

/// An extraction takes from a deposit exactly what it hands out, of the
/// deposit's kind and of no other, and never more than the deposit holds.
pub proof fn extraction_moves_material(r: Resource, requested: u16, rate_percent: u16)
    requires
        r.wf(),
    ensures
        ({
            let taken = extracted_from(r.remaining_quantity as int, requested as int, rate_percent as int);
            let out = split_by_kind(r.kind, taken as u16);
            &&& 0 <= taken <= r.remaining_quantity
            &&& out.0 + out.1 == taken
            &&& (r.kind == ResourceKind::Crystal ==> out.1 == 0)
            &&& (r.kind == ResourceKind::Energy ==> out.0 == 0)
        }),
{
    assert(requested as int * rate_percent as int >= 0) by (nonlinear_arith);
}

/// Two games set up from the same size and the same masks have the same grid:
/// the layout is a function of those inputs alone.
pub proof fn generation_is_deterministic(
    a: Grid,
    b: Grid,
    rows: u32,
    cols: u32,
    obstacle: Seq<Vec<bool>>,
    safe_zone: Seq<Vec<bool>>,
)
    requires
        a.rows == rows && a.cols == cols,
        b.rows == rows && b.cols == cols,
        forall|x: int, y: int|
            #![trigger a.cell(x, y)]
            a.in_bounds(x, y) ==> a.cell(x, y) == layout_cell(rows, cols, obstacle, safe_zone, x, y),
        forall|x: int, y: int|
            #![trigger b.cell(x, y)]
            b.in_bounds(x, y) ==> b.cell(x, y) == layout_cell(rows, cols, obstacle, safe_zone, x, y),
    ensures
        forall|x: int, y: int|
            #![trigger a.cell(x, y), b.cell(x, y)]
            a.in_bounds(x, y) ==> a.cell(x, y) == b.cell(x, y),
{
}

/// Two grids of one size that hold the same cells.
pub open spec fn same_cells(a: Grid, b: Grid) -> bool {
    &&& a.rows == b.rows
    &&& a.cols == b.cols
    &&& forall|x: int, y: int| #![trigger a.cell(x, y), b.cell(x, y)] a.in_bounds(x, y) ==> a.cell(x, y) == b.cell(x, y)
}

proof fn lemma_expand_same(a: Grid, b: Grid, st: Frontier, cur: Localization, d: nat)
    requires
        same_cells(a, b),
    ensures
        frontier_expand(a, st, cur, d) == frontier_expand(b, st, cur, d),
    decreases d,
{
    if d > 0 {
        lemma_expand_same(a, b, st, cur, (d - 1) as nat);
        let s1 = frontier_expand(a, st, cur, (d - 1) as nat);
        let (nx, ny) = crate::pathfinder::nb(cur, d - 1);
        if a.in_bounds(nx, ny) {
            assert(a.cell(nx, ny) == b.cell(nx, ny));
        }
        assert(frontier_visit(a, s1, cur, d - 1) == frontier_visit(b, s1, cur, d - 1));
    }
}

proof fn lemma_run_same(a: Grid, b: Grid, target: Localization, st: Frontier, fuel: nat)
    requires
        same_cells(a, b),
    ensures
        frontier_run(a, target, st, fuel) == frontier_run(b, target, st, fuel),
    decreases fuel,
{
    if fuel > 0 && st.3 < st.2.len() && !st.4 {
        let cur = st.2[st.3];
        lemma_expand_same(a, b, (st.0, st.1, st.2, st.3 + 1, st.4), cur, 4);
        assert(frontier_step(a, target, st) == frontier_step(b, target, st));
        lemma_run_same(a, b, target, frontier_step(a, target, st), (fuel - 1) as nat);
    }
}

/// Path finding is deterministic: grids that hold the same cells give the
/// same path between the same two cells, and the executable search returns
/// exactly this path.
pub proof fn pathfinding_is_deterministic(a: Grid, b: Grid, start: Localization, target: Localization)
    requires
        same_cells(a, b),
    ensures
        bfs_path(a, start, target) == bfs_path(b, start, target),
{
    let fuel = (a.rows * a.cols + 1) as nat;
    assert(frontier_init(a, start) == frontier_init(b, start));
    lemma_run_same(a, b, target, frontier_init(a, start), fuel);
}

} // verus!
