use vstd::prelude::*;


use crate::chance::{choose_after, nats, seeded_pick_after};
use crate::events::EventType;
use crate::grid::{Grid, Localization};
use crate::id_generator::IDGenerator;
use crate::pathfinder::{
    bfs_path, adjacent, find_shortest_path, lemma_reach_through, lemma_walk_tail, reachable, walk_end,
};

verus! {

/// The seed of an agent's generator for one tick:
/// `seed + id^5 * 31 + x * 17 + y * 13`, modulo 2^64.
pub open spec fn agent_seed(seed: u64, id: u32, loc: Localization) -> u64 {
    let i = id as int;
    ((seed + i * i * i * i * i * 31 + loc.x * 17 + loc.y * 13) % 0x1_0000_0000_0000_0000) as u64
}

proof fn lemma_wrapping_add(u: u64, v: u64)
    ensures
        u.wrapping_add(v) as int == (u as int + v as int) % 0x1_0000_0000_0000_0000,
{
    let m: int = 0x1_0000_0000_0000_0000;
    if u as int + v as int >= m {
        assert((u as int + v as int) % m == u as int + v as int - m) by {
            vstd::arithmetic::div_mod::lemma_fundamental_div_mod_converse(u as int + v as int, m, 1, u as int + v as int - m);
        }
    } else {
        vstd::arithmetic::div_mod::lemma_small_mod((u as int + v as int) as nat, m as nat);
    }
}

pub fn seed_for(seed: u64, id: u32, loc: Localization) -> (r: u64)
    ensures
        r == agent_seed(seed, id, loc),
{
    let i = id as u64;
    let p = i.wrapping_mul(i).wrapping_mul(i).wrapping_mul(i).wrapping_mul(i);
    let a = p.wrapping_mul(31);
    let b = (loc.x as u64).wrapping_mul(17);
    let c = (loc.y as u64).wrapping_mul(13);
    let ab = a.wrapping_add(b);
    let abc = ab.wrapping_add(c);
    let r = seed.wrapping_add(abc);
    proof {
        let m: int = 0x1_0000_0000_0000_0000;
        let ii = id as int;
        let p2 = i.wrapping_mul(i);
        let p3 = p2.wrapping_mul(i);
        let p4 = p3.wrapping_mul(i);
        vstd::arithmetic::div_mod::lemma_mul_mod_noop_left(ii * ii, ii, m);
        vstd::arithmetic::div_mod::lemma_mul_mod_noop_left(ii * ii * ii, ii, m);
        vstd::arithmetic::div_mod::lemma_mul_mod_noop_left(ii * ii * ii * ii, ii, m);
        vstd::arithmetic::div_mod::lemma_mul_mod_noop_left(ii * ii * ii * ii * ii, 31, m);
        assert(p3 as int == (ii * ii * ii) % m);
        assert(p4 as int == (ii * ii * ii * ii) % m);
        assert(p as int == (ii * ii * ii * ii * ii) % m);
        assert(a as int == (ii * ii * ii * ii * ii * 31) % m);
        let xs = loc.x as int * 17;
        let ys = loc.y as int * 13;
        vstd::arithmetic::div_mod::lemma_small_mod(xs as nat, m as nat);
        vstd::arithmetic::div_mod::lemma_small_mod(ys as nat, m as nat);
        assert(b as int == xs);
        assert(c as int == ys);
        lemma_wrapping_add(a, b);
        lemma_wrapping_add(ab, c);
        lemma_wrapping_add(seed, abc);
        let big = ii * ii * ii * ii * ii * 31;
        vstd::arithmetic::div_mod::lemma_add_mod_noop(big, xs, m);
        vstd::arithmetic::div_mod::lemma_small_mod(xs as nat, m as nat);
        assert(ab as int == (big + xs) % m);
        vstd::arithmetic::div_mod::lemma_add_mod_noop(big + xs, ys, m);
        vstd::arithmetic::div_mod::lemma_small_mod(ys as nat, m as nat);
        assert(abc as int == (big + xs + ys) % m);
        vstd::arithmetic::div_mod::lemma_add_mod_noop(seed as int, big + xs + ys, m);
        vstd::arithmetic::div_mod::lemma_small_mod(seed as nat, m as nat);
        assert(r as int == (seed as int + big + xs + ys) % m);
    }
    r
}

/// `t` is on the ring around `c`: at squared distance exactly 4, which on a
/// grid means two cells away along a row or a column.
pub open spec fn on_ring(c: Localization, t: Localization) -> bool {
    let (dx, dy) = (t.x - c.x, t.y - c.y);
    ||| ((dx == 2 || dx == -2) && dy == 0)
    ||| (dx == 0 && (dy == 2 || dy == -2))
}

/// A ring cell that is on the grid and no obstacle.
pub open spec fn open_ring_cell(g: Grid, c: Localization, t: Localization) -> bool {
    on_ring(c, t) && g.passable(t.x as int, t.y as int)
}

/// An open ring cell whose freshness is the lowest among the open ring cells.
pub open spec fn best_ring_cell(g: Grid, c: Localization, t: Localization) -> bool {
    &&& open_ring_cell(g, c, t)
    &&& forall|u: Localization|
        #[trigger] open_ring_cell(g, c, u) ==> g.cell(t.x as int, t.y as int).explore <= g.cell(
            u.x as int,
            u.y as int,
        ).explore
}

proof fn lemma_push_keeps(s: Seq<Localization>, x: Localization)
    ensures
        forall|u: Localization| s.contains(u) ==> #[trigger] s.push(x).contains(u),
        s.push(x).contains(x),
        forall|u: Localization| #[trigger] s.push(x).contains(u) ==> s.contains(u) || u == x,
{
    assert forall|u: Localization| s.contains(u) implies #[trigger] s.push(x).contains(u) by {
        let i = choose|i: int| 0 <= i < s.len() && s[i] == u;
        assert(s.push(x)[i] == u);
    }
    assert(s.push(x)[s.len() as int] == x);
    assert forall|u: Localization| #[trigger] s.push(x).contains(u) implies s.contains(u) || u == x by {
        let i = choose|i: int| 0 <= i < s.len() + 1 && s.push(x)[i] == u;
        if i < s.len() {
            assert(s[i] == u);
        }
    }
}

/// `t` alone when `ok`, else nothing.
pub open spec fn kept_if(ok: bool, t: Localization) -> Seq<Localization> {
    if ok {
        seq![t]
    } else {
        Seq::empty()
    }
}

/// The ring cells around `c` that lie on a rows x cols grid, in row-major
/// order: above, left, right, below.
pub open spec fn ring_seq(c: Localization, rows: u32, cols: u32) -> Seq<Localization> {
    let (x, y) = (c.x as int, c.y as int);
    kept_if(x >= 2 && x - 2 < rows && y < cols, crate::pathfinder::at(x - 2, y))
        + kept_if(y >= 2 && x < rows && y - 2 < cols, crate::pathfinder::at(x, y - 2))
        + kept_if(x < rows && y + 2 < cols, crate::pathfinder::at(x, y + 2))
        + kept_if(x + 2 < rows && y < cols, crate::pathfinder::at(x + 2, y))
}

/// The ring cells around `c` that lie on a rows x cols grid, in row-major order.
pub fn get_circle_cells(c: Localization, rows: u32, cols: u32) -> (r: Vec<Localization>)
    ensures
        forall|t: Localization|
            r@.contains(t) <==> on_ring(c, t) && t.x < rows && t.y < cols,
        r@ == ring_seq(c, rows, cols),
        r@.no_duplicates(),
{
    let mut cells: Vec<Localization> = Vec::new();
    let ghost e0 = Localization { x: (c.x - 2) as u32, y: c.y };
    let ghost e1 = Localization { x: c.x, y: (c.y - 2) as u32 };
    let ghost e2 = Localization { x: c.x, y: (c.y + 2) as u32 };
    let ghost e3 = Localization { x: (c.x + 2) as u32, y: c.y };
    if c.x >= 2 && c.x - 2 < rows && c.y < cols {
        proof { lemma_push_keeps(cells@, e0); }
        cells.push(Localization { x: c.x - 2, y: c.y });
    }
    let ghost s1 = cells@;
    assert(s1 =~= kept_if(c.x >= 2 && c.x - 2 < rows && c.y < cols, crate::pathfinder::at(c.x - 2, c.y as int)));
    if c.y >= 2 && c.x < rows && c.y - 2 < cols {
        proof { lemma_push_keeps(cells@, e1); }
        cells.push(Localization { x: c.x, y: c.y - 2 });
    }
    let ghost s2 = cells@;
    assert(s2 =~= s1 + kept_if(c.y >= 2 && c.x < rows && c.y - 2 < cols, crate::pathfinder::at(c.x as int, c.y - 2)));
    if c.y <= u32::MAX - 2 && c.x < rows && c.y + 2 < cols {
        proof { lemma_push_keeps(cells@, e2); }
        cells.push(Localization { x: c.x, y: c.y + 2 });
    }
    let ghost s3 = cells@;
    assert(s3 =~= s2 + kept_if(c.x < rows && c.y + 2 < cols, crate::pathfinder::at(c.x as int, c.y + 2)));
    if c.x <= u32::MAX - 2 && c.x + 2 < rows && c.y < cols {
        proof { lemma_push_keeps(cells@, e3); }
        cells.push(Localization { x: c.x + 2, y: c.y });
    }
    proof {
        assert(cells@ =~= s3 + kept_if(c.x + 2 < rows && c.y < cols, crate::pathfinder::at(c.x + 2, c.y as int)));
        assert(cells@ =~= ring_seq(c, rows, cols));
        assert forall|a: int, b: int|
            0 <= a < cells@.len() && 0 <= b < cells@.len() && a != b implies cells@[a] != cells@[b] by {
            assert(on_ring(c, cells@[a]) && on_ring(c, cells@[b])) by {
                assert(cells@.contains(cells@[a]) && cells@.contains(cells@[b]));
            }
        }
        assert forall|t: Localization|
            cells@.contains(t) <==> on_ring(c, t) && t.x < rows && t.y < cols by {
            if on_ring(c, t) && t.x < rows && t.y < cols {
                if t.x as int == c.x - 2 {
                    assert(t == e0);
                } else if t.y as int == c.y - 2 {
                    assert(t == e1);
                } else if t.y as int == c.y + 2 {
                    assert(t == e2);
                } else {
                    assert(t == e3);
                }
            }
        }
    }
    cells
}

/// `after` is `before` moved one step onto the first cell of the breadth-first
/// path to `t`: a passable orthogonal neighbour from which `t` can be walked to.
pub open spec fn stepped_toward(g: Grid, before: Scout, after: Scout, t: Localization) -> bool {
    &&& after.id == before.id
    &&& after.prev_loc == before.loc
    &&& adjacent(before.loc, after.loc)
    &&& g.passable(after.loc.x as int, after.loc.y as int)
    &&& reachable(g, after.loc, t)
    &&& bfs_path(g, before.loc, t) is Some
    &&& after.loc == bfs_path(g, before.loc, t)->0[0]
}

/// Some open ring cell around `c` can be walked to.
pub open spec fn ring_reachable(g: Grid, c: Localization) -> bool {
    exists|t: Localization| open_ring_cell(g, c, t) && reachable(g, c, t)
}

/// Some ring cell of the lowest freshness around `c` can be walked to.
pub open spec fn best_reachable(g: Grid, c: Localization) -> bool {
    exists|t: Localization| best_ring_cell(g, c, t) && reachable(g, c, t)
}

/// `after` is `before` moved one step towards an open ring cell, one of the
/// lowest freshness whenever such a cell can be walked to.
pub open spec fn explored(g: Grid, before: Scout, after: Scout) -> bool {
    exists|t: Localization|
        open_ring_cell(g, before.loc, t) && stepped_toward(g, before, after, t) && (best_reachable(
            g,
            before.loc,
        ) ==> best_ring_cell(g, before.loc, t))
}

/// `after` is the outcome of one exploration move of `before` on `g`, with
/// the game's seed `seed`.
pub open spec fn scout_moved(g: Grid, seed: u64, before: Scout, after: Scout) -> bool {
    &&& after == explore_result(g, before, seed)
    &&& after.id == before.id
    &&& ring_reachable(g, before.loc) ==> explored(g, before, after)
    &&& !ring_reachable(g, before.loc) ==> after.loc == before.prev_loc && after.prev_loc == before.loc
}

/// `s` without any occurrence of `t`, order kept.
pub open spec fn drop_all(s: Seq<Localization>, t: Localization) -> Seq<Localization>
    decreases s.len(),
{
    if s.len() == 0 {
        s
    } else if s.last() == t {
        drop_all(s.drop_last(), t)
    } else {
        drop_all(s.drop_last(), t).push(s.last())
    }
}

/// The elements of `s` that satisfy `f`, order kept.
pub open spec fn keep_where(s: Seq<Localization>, f: spec_fn(Localization) -> bool) -> Seq<Localization>
    decreases s.len(),
{
    if s.len() == 0 {
        s
    } else if f(s.last()) {
        keep_where(s.drop_last(), f).push(s.last())
    } else {
        keep_where(s.drop_last(), f)
    }
}

/// The first cell of the breadth-first path from `from` to `t`, if that path
/// has one.
pub open spec fn first_step(g: Grid, from: Localization, t: Localization) -> Option<Localization> {
    match bfs_path(g, from, t) {
        Some(p) => if p.len() > 0 {
            Some(p[0])
        } else {
            None
        },
        None => None,
    }
}

/// Drawing among `cells` with a generator seeded with `seed` that has made
/// draws of the lengths `lens`: the first drawn candidate with a first step
/// gives that step; candidates without one are dropped and the drawing goes
/// on. Also gives the lengths drawn so far.
pub open spec fn attempt_result(
    g: Grid,
    from: Localization,
    cells: Seq<Localization>,
    seed: u64,
    lens: Seq<nat>,
    fuel: nat,
) -> (Option<Localization>, Seq<nat>)
    decreases fuel,
{
    if fuel == 0 || cells.len() == 0 {
        (None, lens)
    } else {
        let l2 = lens.push(cells.len());
        let t = cells[seeded_pick_after(seed, l2) as int];
        match first_step(g, from, t) {
            Some(p) => (Some(p), l2),
            None => attempt_result(g, from, drop_all(cells, t), seed, l2, (fuel - 1) as nat),
        }
    }
}

/// Where one exploration move takes `s`: first the least-fresh open ring
/// cells are drawn from, then all open ring cells, with one generator seeded
/// by `agent_seed(seed, id, loc)`; failing both, back to the previous
/// location.
#[verifier::opaque]
pub open spec fn explore_result(g: Grid, s: Scout, seed: u64) -> Scout {
    let circle = ring_seq(s.loc, g.rows, g.cols);
    let sd = agent_seed(seed, s.id, s.loc);
    let kb = keep_where(circle, |t: Localization| best_ring_cell(g, s.loc, t));
    let b = attempt_result(g, s.loc, kb, sd, seq![], kb.len());
    match b.0 {
        Some(p) => Scout { loc: p, prev_loc: s.loc, ..s },
        None => {
            let ka = keep_where(circle, |t: Localization| open_ring_cell(g, s.loc, t));
            let a = attempt_result(g, s.loc, ka, sd, b.1, ka.len());
            match a.0 {
                Some(p) => Scout { loc: p, prev_loc: s.loc, ..s },
                None => Scout { loc: s.prev_loc, prev_loc: s.loc, ..s },
            }
        },
    }
}

proof fn lemma_keep_where_agree(s: Seq<Localization>, f: spec_fn(Localization) -> bool, h: spec_fn(Localization) -> bool)
    requires
        forall|i: int| 0 <= i < s.len() ==> f(#[trigger] s[i]) == h(s[i]),
    ensures
        keep_where(s, f) == keep_where(s, h),
        keep_where(s, f).len() <= s.len(),
    decreases s.len(),
{
    if s.len() > 0 {
        assert forall|i: int| 0 <= i < s.drop_last().len() implies f(#[trigger] s.drop_last()[i]) == h(s.drop_last()[i]) by {
            assert(s.drop_last()[i] == s[i]);
        }
        lemma_keep_where_agree(s.drop_last(), f, h);
        assert(f(s[s.len() - 1]) == h(s[s.len() - 1]));
    }
}

proof fn lemma_nats_push(v: Seq<usize>, n: usize)
    ensures
        nats(v.push(n)) == nats(v).push(n as nat),
{
    assert(nats(v.push(n)) =~= nats(v).push(n as nat));
}

/// An agent that explores: each tick it moves one cell towards the least
/// recently observed reachable cell of the ring around it.
#[derive(Clone, Copy, Debug)]
pub struct Scout {
    pub id: u32,
    pub loc: Localization,
    pub prev_loc: Localization,
}

/// Removes every occurrence of `t`.
fn without(cells: &Vec<Localization>, t: Localization) -> (r: Vec<Localization>)
    ensures
        forall|u: Localization| #[trigger] r@.contains(u) <==> cells@.contains(u) && u != t,
        cells@.contains(t) ==> r@.len() < cells@.len(),
        r@.len() <= cells@.len(),
        r@ == drop_all(cells@, t),
{
    let mut r: Vec<Localization> = Vec::new();
    let mut i: usize = 0;
    let ghost mut dropped = false;
    proof {
        assert(cells@.subrange(0, 0) =~= Seq::<Localization>::empty());
    }
    while i < cells.len()
        invariant
            i <= cells@.len(),
            forall|u: Localization|
                #[trigger] r@.contains(u) <==> (exists|k: int| 0 <= k < i && cells@[k] == u) && u != t,
            r@.len() + (if dropped { 1int } else { 0int }) <= i,
            r@ == drop_all(cells@.subrange(0, i as int), t),
            (exists|k: int| 0 <= k < i && cells@[k] == t) ==> dropped,
        decreases cells@.len() - i,
    {
        let u = cells[i];
        proof {
            assert(cells@.subrange(0, i + 1).drop_last() =~= cells@.subrange(0, i as int));
        }
        if !(u.x == t.x && u.y == t.y) {
            proof { lemma_push_keeps(r@, u); }
            r.push(u);
        } else {
            proof { dropped = true; }
        }
        proof {
            assert forall|w: Localization|
                #[trigger] r@.contains(w) <==> (exists|k: int| 0 <= k < i + 1 && cells@[k] == w) && w
                    != t by {
                if exists|k: int| 0 <= k < i + 1 && cells@[k] == w {
                    let k = choose|k: int| 0 <= k < i + 1 && cells@[k] == w;
                    if k < i {
                        assert(exists|k2: int| 0 <= k2 < i && cells@[k2] == w);
                    }
                }
            }
        }
        i = i + 1;
    }
    proof {
        assert(cells@.subrange(0, cells@.len() as int) =~= cells@);
        if cells@.contains(t) {
            let k = choose|k: int| 0 <= k < cells@.len() && cells@[k] == t;
            assert(exists|k2: int| 0 <= k2 < i && cells@[k2] == t);
        }
        assert forall|u: Localization| #[trigger] r@.contains(u) <==> cells@.contains(u) && u != t by {
            if cells@.contains(u) {
                let k = choose|k: int| 0 <= k < cells@.len() && cells@[k] == u;
                assert(exists|k2: int| 0 <= k2 < i && cells@[k2] == u);
            }
        }
    }
    r
}

/// The first step of the path from `from` to `t`, if `t` can be walked to
/// and is not `from` itself.
fn first_step_toward(grid: &Grid, from: Localization, t: Localization) -> (r: Option<Localization>)
    requires
        grid.wf(),
        grid.in_bounds(from.x as int, from.y as int),
    ensures
        (r matches Some(step) ==> adjacent(from, step) && grid.passable(step.x as int, step.y as int)
            && reachable(*grid, step, t)),
        r is None ==> t == from || !reachable(*grid, from, t),
        (r matches Some(step) ==> bfs_path(*grid, from, t) is Some && step == bfs_path(*grid, from, t)->0[0]),
        r == first_step(*grid, from, t),
{
    match find_shortest_path(grid, from, t) {
        Some(path) => {
            if path.len() > 0 {
                proof {
                    lemma_walk_tail(*grid, from, path@);
                    assert(walk_end(path@[0], path@.drop_first()) == t);
                }
                Some(path[0])
            } else {
                None
            }
        },
        None => None,
    }
}

impl Scout {
    /// Both locations lie on the grid.
    pub open spec fn wf(&self, g: Grid) -> bool {
        &&& g.in_bounds(self.loc.x as int, self.loc.y as int)
        &&& g.in_bounds(self.prev_loc.x as int, self.prev_loc.y as int)
    }

    pub fn new(loc: Localization, id_generator: &mut IDGenerator) -> (r: Self)
        requires
            old(id_generator).can_issue(),
        ensures
            r.id == old(id_generator).last() + 1,
            final(id_generator).last() == r.id,
            r.loc == loc,
            r.prev_loc == loc,
    {
        let id = id_generator.generate_id();
        Scout { id, loc, prev_loc: loc }
    }

    fn move_to(&mut self, to: Localization)
        ensures
            final(self).id == old(self).id,
            final(self).loc == to,
            final(self).prev_loc == old(self).loc,
    {
        self.prev_loc = self.loc;
        self.loc = to;
    }

    /// The fallback move: back to where the scout came from.
    pub fn swap_with_previous_location(&mut self)
        ensures
            final(self).id == old(self).id,
            final(self).loc == old(self).prev_loc,
            final(self).prev_loc == old(self).loc,
    {
        let prev = self.prev_loc;
        self.prev_loc = self.loc;
        self.loc = prev;
    }

    /// Draws candidates at random until one can be walked to, then takes the
    /// first step of the path to it. Candidates that cannot be reached are
    /// dropped from `cells`.
    fn attempt_movement(
        &mut self,
        cells: &mut Vec<Localization>,
        grid: &Grid,
        seed: u64,
        lens: &mut Vec<usize>,
    ) -> (moved: bool)
        requires
            grid.wf(),
            grid.in_bounds(old(self).loc.x as int, old(self).loc.y as int),
        ensures
            ({
                let res = attempt_result(*grid, old(self).loc, old(cells)@, seed, nats(old(lens)@), old(cells)@.len());
                &&& moved == res.0 is Some
                &&& moved ==> final(self).loc == res.0->0 && final(self).prev_loc == old(self).loc
                    && final(self).id == old(self).id
                &&& nats(final(lens)@) == res.1
            }),
            moved ==> exists|t: Localization|
                old(cells)@.contains(t) && stepped_toward(*grid, *old(self), *final(self), t),
            !moved ==> *final(self) == *old(self),
            !moved ==> forall|t: Localization|
                old(cells)@.contains(t) ==> t == old(self).loc || !reachable(*grid, old(self).loc, t),
            !moved ==> final(cells)@.len() == 0,
    {
        let ghost cells0 = cells@;
        let ghost me = *self;
        let ghost res0 = attempt_result(*grid, me.loc, cells0, seed, nats(lens@), cells0.len());
        let ghost mut fuel: nat = cells0.len();
        while cells.len() > 0
            invariant
                res0 == attempt_result(*grid, me.loc, cells@, seed, nats(lens@), fuel),
                fuel >= cells@.len(),
                res0 == attempt_result(*grid, old(self).loc, old(cells)@, seed, nats(old(lens)@), old(cells)@.len()),
                grid.wf(),
                *self == me,
                me == *old(self),
                cells0 == old(cells)@,
                grid.in_bounds(me.loc.x as int, me.loc.y as int),
                forall|u: Localization| cells@.contains(u) ==> cells0.contains(u),
                forall|u: Localization|
                    cells0.contains(u) && !cells@.contains(u) ==> u == me.loc || !reachable(
                        *grid,
                        me.loc,
                        u,
                    ),
            decreases cells@.len(),
        {
            let n = cells.len();
            let picked = choose_after(cells, seed, lens);
            proof {
                lemma_nats_push(lens@, n);
            }
            lens.push(n);
            match picked {
                Some(t) => {
                    match first_step_toward(grid, self.loc, t) {
                        Some(step) => {
                            self.move_to(step);
                            assert(stepped_toward(*grid, me, *self, t));
                            assert(cells0.contains(t));
                            return true;
                        },
                        None => {
                            let rest = without(cells, t);
                            *cells = rest;
                            proof {
                                fuel = (fuel - 1) as nat;
                            }
                        },
                    }
                },
                None => {},
            }
        }
        false
    }

    /// The open cells among `circle_cells`.
    fn open_cells(circle_cells: &Vec<Localization>, grid: &Grid, c: Localization) -> (r: Vec<Localization>)
        requires
            grid.wf(),
            forall|t: Localization|
                circle_cells@.contains(t) <==> on_ring(c, t) && t.x < grid.rows && t.y < grid.cols,
        ensures
            forall|t: Localization| #[trigger] r@.contains(t) <==> open_ring_cell(*grid, c, t),
            r@ == keep_where(circle_cells@, |t: Localization| open_ring_cell(*grid, c, t)),
    {
        let mut r: Vec<Localization> = Vec::new();
        let mut j: usize = 0;
        let ghost f = |t: Localization| grid.passable(t.x as int, t.y as int);
        proof {
            assert(circle_cells@.subrange(0, 0) =~= Seq::<Localization>::empty());
        }
        while j < circle_cells.len()
            invariant
                grid.wf(),
                j <= circle_cells@.len(),
                f == (|t: Localization| grid.passable(t.x as int, t.y as int)),
                r@ == keep_where(circle_cells@.subrange(0, j as int), f),
                forall|u: Localization|
                    #[trigger] r@.contains(u) <==> exists|k: int|
                        0 <= k < j && circle_cells@[k] == u && grid.passable(u.x as int, u.y as int),
            decreases circle_cells@.len() - j,
        {
            let t = circle_cells[j];
            proof {
                assert(circle_cells@.subrange(0, j + 1).drop_last() =~= circle_cells@.subrange(0, j as int));
            }
            if grid.is_passable(t.x, t.y) {
                proof { lemma_push_keeps(r@, t); }
                r.push(t);
            }
            proof {
                assert forall|u: Localization|
                    #[trigger] r@.contains(u) <==> exists|k: int|
                        0 <= k < j + 1 && circle_cells@[k] == u && grid.passable(u.x as int, u.y as int) by {
                    if exists|k: int| 0 <= k < j + 1 && circle_cells@[k] == u && grid.passable(u.x as int, u.y as int) {
                        let k = choose|k: int| 0 <= k < j + 1 && circle_cells@[k] == u && grid.passable(u.x as int, u.y as int);
                        if k < j {
                            assert(exists|k2: int| 0 <= k2 < j && circle_cells@[k2] == u && grid.passable(u.x as int, u.y as int));
                        }
                    }
                }
            }
            j = j + 1;
        }
        proof {
            assert forall|t: Localization| #[trigger] r@.contains(t) <==> open_ring_cell(*grid, c, t) by {
                if open_ring_cell(*grid, c, t) {
                    assert(circle_cells@.contains(t));
                    let k = choose|k: int| 0 <= k < circle_cells@.len() && circle_cells@[k] == t;
                    assert(exists|k2: int| 0 <= k2 < circle_cells@.len() && circle_cells@[k2] == t && grid.passable(t.x as int, t.y as int));
                }
            }
            assert(circle_cells@.subrange(0, circle_cells@.len() as int) =~= circle_cells@);
            let h = |t: Localization| open_ring_cell(*grid, c, t);
            assert forall|i: int| 0 <= i < circle_cells@.len() implies f(#[trigger] circle_cells@[i]) == h(circle_cells@[i]) by {
                assert(circle_cells@.contains(circle_cells@[i]));
            }
            lemma_keep_where_agree(circle_cells@, f, h);
        }
        r
    }

    /// First tier of the move: the open ring cells with the lowest freshness.
    pub fn try_move_to_best_cell(
        &mut self,
        circle_cells: &Vec<Localization>,
        grid: &Grid,
        seed: u64,
        lens: &mut Vec<usize>,
    ) -> (moved: bool)
        requires
            grid.wf(),
            grid.in_bounds(old(self).loc.x as int, old(self).loc.y as int),
            forall|t: Localization|
                circle_cells@.contains(t) <==> on_ring(old(self).loc, t) && t.x < grid.rows && t.y < grid.cols,
        ensures
            moved ==> exists|t: Localization|
                best_ring_cell(*grid, old(self).loc, t) && stepped_toward(*grid, *old(self), *final(self), t),
            !moved ==> *final(self) == *old(self),
            !moved ==> forall|t: Localization|
                best_ring_cell(*grid, old(self).loc, t) ==> !reachable(*grid, old(self).loc, t),
            ({
                let k = keep_where(circle_cells@, |t: Localization| best_ring_cell(*grid, old(self).loc, t));
                let res = attempt_result(*grid, old(self).loc, k, seed, nats(old(lens)@), k.len());
                &&& moved == res.0 is Some
                &&& moved ==> final(self).loc == res.0->0 && final(self).prev_loc == old(self).loc
                    && final(self).id == old(self).id
                &&& nats(final(lens)@) == res.1
            }),
    {
        let ghost me = *self;
        let mut best = Scout::best_cells(circle_cells, grid, self.loc);
        let ghost b0 = best@;
        let moved = self.attempt_movement(&mut best, grid, seed, lens);
        proof {
            if !moved {
                assert forall|t: Localization|
                    best_ring_cell(*grid, me.loc, t) implies !reachable(*grid, me.loc, t) by {
                    assert(b0.contains(t));
                }
            }
        }
        moved
    }

    /// Second tier of the move: any open ring cell.
    pub fn try_move_to_any_cell(
        &mut self,
        circle_cells: &Vec<Localization>,
        grid: &Grid,
        seed: u64,
        lens: &mut Vec<usize>,
    ) -> (moved: bool)
        requires
            grid.wf(),
            grid.in_bounds(old(self).loc.x as int, old(self).loc.y as int),
            forall|t: Localization|
                circle_cells@.contains(t) <==> on_ring(old(self).loc, t) && t.x < grid.rows && t.y < grid.cols,
        ensures
            moved ==> exists|t: Localization|
                open_ring_cell(*grid, old(self).loc, t) && stepped_toward(*grid, *old(self), *final(self), t),
            !moved ==> *final(self) == *old(self),
            !moved ==> forall|t: Localization|
                open_ring_cell(*grid, old(self).loc, t) ==> !reachable(*grid, old(self).loc, t),
            ({
                let k = keep_where(circle_cells@, |t: Localization| open_ring_cell(*grid, old(self).loc, t));
                let res = attempt_result(*grid, old(self).loc, k, seed, nats(old(lens)@), k.len());
                &&& moved == res.0 is Some
                &&& moved ==> final(self).loc == res.0->0 && final(self).prev_loc == old(self).loc
                    && final(self).id == old(self).id
                &&& nats(final(lens)@) == res.1
            }),
    {
        let ghost me = *self;
        let mut cells = Scout::open_cells(circle_cells, grid, self.loc);
        let ghost c0 = cells@;
        let moved = self.attempt_movement(&mut cells, grid, seed, lens);
        proof {
            if !moved {
                assert forall|t: Localization|
                    open_ring_cell(*grid, me.loc, t) implies !reachable(*grid, me.loc, t) by {
                    assert(c0.contains(t));
                }
            }
        }
        moved
    }

    /// One exploration move. The scout takes one step towards an open ring cell
    /// that it can walk to, preferring those with the lowest freshness; when no
    /// ring cell can be reached it steps back to its previous location. Which
    /// candidate is tried first is drawn from a generator seeded by
    /// `agent_seed(seed, id, loc)`.
    #[verifier::rlimit(40)]
    pub fn explore(&mut self, grid: &Grid, seed: u64)
        requires
            grid.wf(),
            old(self).wf(*grid),
        ensures
            final(self).wf(*grid),
            final(self).id == old(self).id,
            ring_reachable(*grid, old(self).loc) ==> explored(*grid, *old(self), *final(self)),
            !ring_reachable(*grid, old(self).loc) ==> final(self).loc == old(self).prev_loc
                && final(self).prev_loc == old(self).loc,
            *final(self) == explore_result(*grid, *old(self), seed),
    {
        reveal(explore_result);
        let sd = seed_for(seed, self.id, self.loc);
        let mut lens: Vec<usize> = Vec::new();
        let circle_cells = get_circle_cells(self.loc, grid.rows, grid.cols);
        let ghost me = *self;
        proof {
            assert(nats(lens@) =~= seq![]);
        }
        let ghost lens0 = lens@;
        if self.try_move_to_best_cell(&circle_cells, grid, sd, &mut lens) {
            proof {
                let t = choose|t: Localization|
                    best_ring_cell(*grid, me.loc, t) && stepped_toward(*grid, me, *self, t);
                lemma_reach_through(*grid, me.loc, self.loc, t);
                assert(open_ring_cell(*grid, me.loc, t) && reachable(*grid, me.loc, t));
                assert(explored(*grid, me, *self));
            }
            return;
        }
        let ghost lens1 = lens@;
        if self.try_move_to_any_cell(&circle_cells, grid, sd, &mut lens) {
            proof {
                let t = choose|t: Localization|
                    open_ring_cell(*grid, me.loc, t) && stepped_toward(*grid, me, *self, t);
                lemma_reach_through(*grid, me.loc, self.loc, t);
                assert(open_ring_cell(*grid, me.loc, t) && reachable(*grid, me.loc, t));
                assert(!best_reachable(*grid, me.loc));
                assert(explored(*grid, me, *self));
            }
            return;
        }
        proof {
            assert forall|t: Localization|
                open_ring_cell(*grid, me.loc, t) implies !reachable(*grid, me.loc, t) by {}
        }
        self.swap_with_previous_location();
    }

    /// What the scout does with a message: on `Tick` it explores and reports
    /// where it now stands; other messages get no answer.
    pub fn handle_event(&mut self, event: EventType, grid: &Grid, seed: u64) -> (reply: Option<EventType>)
        requires
            grid.wf(),
            old(self).wf(*grid),
        ensures
            final(self).wf(*grid),
            final(self).id == old(self).id,
            (event matches EventType::Tick ==> reply == Some(EventType::Moved(final(self).loc))),
            (event matches EventType::Tick ==> scout_moved(*grid, seed, *old(self), *final(self))),
            !(event matches EventType::Tick) ==> reply is None && *final(self) == *old(self),
    {
        match event {
            EventType::Tick => {
                self.explore(grid, seed);
                Some(EventType::Moved(self.loc))
            },
            _ => None,
        }
    }

    /// The open ring cells with the lowest freshness, among `circle_cells`.
    fn best_cells(circle_cells: &Vec<Localization>, grid: &Grid, c: Localization) -> (best: Vec<Localization>)
        requires
            grid.wf(),
            forall|t: Localization|
                circle_cells@.contains(t) <==> on_ring(c, t) && t.x < grid.rows && t.y < grid.cols,
        ensures
            forall|t: Localization| #[trigger] best@.contains(t) <==> best_ring_cell(*grid, c, t),
            best@ == keep_where(circle_cells@, |t: Localization| best_ring_cell(*grid, c, t)),
    {
        let mut min: i8 = i8::MAX;
        let mut i: usize = 0;
        while i < circle_cells.len()
            invariant
                grid.wf(),
                i <= circle_cells@.len(),
                forall|k: int|
                    0 <= k < i && grid.passable(circle_cells@[k].x as int, circle_cells@[k].y as int)
                        ==> min <= grid.cell(circle_cells@[k].x as int, circle_cells@[k].y as int).explore,
                (exists|k: int|
                    0 <= k < i && grid.passable(circle_cells@[k].x as int, circle_cells@[k].y as int)
                        && min == grid.cell(circle_cells@[k].x as int, circle_cells@[k].y as int).explore)
                    || min == i8::MAX,
            decreases circle_cells@.len() - i,
        {
            let t = circle_cells[i];
            if grid.is_passable(t.x, t.y) {
                let e = grid.explore_at(t.x, t.y);
                if e < min {
                    min = e;
                }
            }
            i = i + 1;
        }
        let mut best: Vec<Localization> = Vec::new();
        let mut j: usize = 0;
        let ghost f = |t: Localization| grid.passable(t.x as int, t.y as int) && grid.cell(t.x as int, t.y as int).explore == min;
        proof {
            assert(circle_cells@.subrange(0, 0) =~= Seq::<Localization>::empty());
        }
        while j < circle_cells.len()
            invariant
                grid.wf(),
                j <= circle_cells@.len(),
                f == (|t: Localization| grid.passable(t.x as int, t.y as int) && grid.cell(t.x as int, t.y as int).explore == min),
                best@ == keep_where(circle_cells@.subrange(0, j as int), f),
                forall|u: Localization|
                    #[trigger] best@.contains(u) <==> exists|k: int|
                        0 <= k < j && circle_cells@[k] == u && grid.passable(u.x as int, u.y as int)
                            && grid.cell(u.x as int, u.y as int).explore == min,
            decreases circle_cells@.len() - j,
        {
            let t = circle_cells[j];
            proof {
                assert(circle_cells@.subrange(0, j + 1).drop_last() =~= circle_cells@.subrange(0, j as int));
            }
            let keep = grid.is_passable(t.x, t.y) && grid.explore_at(t.x, t.y) == min;
            if keep {
                proof { lemma_push_keeps(best@, t); }
                best.push(t);
            }
            proof {
                assert forall|u: Localization|
                    #[trigger] best@.contains(u) <==> exists|k: int|
                        0 <= k < j + 1 && circle_cells@[k] == u && grid.passable(u.x as int, u.y as int)
                            && grid.cell(u.x as int, u.y as int).explore == min by {
                    if exists|k: int|
                        0 <= k < j + 1 && circle_cells@[k] == u && grid.passable(u.x as int, u.y as int)
                            && grid.cell(u.x as int, u.y as int).explore == min {
                        let k = choose|k: int|
                            0 <= k < j + 1 && circle_cells@[k] == u && grid.passable(u.x as int, u.y as int)
                                && grid.cell(u.x as int, u.y as int).explore == min;
                        if k < j {
                            assert(exists|k2: int|
                                0 <= k2 < j && circle_cells@[k2] == u && grid.passable(u.x as int, u.y as int)
                                    && grid.cell(u.x as int, u.y as int).explore == min);
                        }
                    }
                }
            }
            j = j + 1;
        }
        proof {
            assert forall|t: Localization| #[trigger] best@.contains(t) <==> best_ring_cell(*grid, c, t) by {
                if best@.contains(t) {
                    let k = choose|k: int|
                        0 <= k < circle_cells@.len() && circle_cells@[k] == t && grid.passable(t.x as int, t.y as int)
                            && grid.cell(t.x as int, t.y as int).explore == min;
                    assert(circle_cells@.contains(t));
                    assert forall|u: Localization| #[trigger] open_ring_cell(*grid, c, u) implies grid.cell(
                        t.x as int,
                        t.y as int,
                    ).explore <= grid.cell(u.x as int, u.y as int).explore by {
                        assert(circle_cells@.contains(u));
                        let k2 = choose|k2: int| 0 <= k2 < circle_cells@.len() && circle_cells@[k2] == u;
                    }
                }
                if best_ring_cell(*grid, c, t) {
                    assert(circle_cells@.contains(t));
                    let k = choose|k: int| 0 <= k < circle_cells@.len() && circle_cells@[k] == t;
                    assert(min <= grid.cell(t.x as int, t.y as int).explore);
                    if min == i8::MAX {
                        assert(grid.cell(t.x as int, t.y as int).explore <= 30);
                    } else {
                        let k0 = choose|k0: int|
                            0 <= k0 < circle_cells@.len() && grid.passable(circle_cells@[k0].x as int, circle_cells@[k0].y as int)
                                && min == grid.cell(circle_cells@[k0].x as int, circle_cells@[k0].y as int).explore;
                        let u = circle_cells@[k0];
                        assert(circle_cells@.contains(u));
                        assert(open_ring_cell(*grid, c, u));
                    }
                    assert(exists|k2: int|
                        0 <= k2 < circle_cells@.len() && circle_cells@[k2] == t && grid.passable(t.x as int, t.y as int)
                            && grid.cell(t.x as int, t.y as int).explore == min);
                }
            }
            assert(circle_cells@.subrange(0, circle_cells@.len() as int) =~= circle_cells@);
            let h = |t: Localization| best_ring_cell(*grid, c, t);
            assert forall|i: int| 0 <= i < circle_cells@.len() implies f(#[trigger] circle_cells@[i]) == h(circle_cells@[i]) by {
                let t = circle_cells@[i];
                if f(t) {
                    assert(best@.contains(t)) by {
                        assert(exists|k2: int| 0 <= k2 < circle_cells@.len() && circle_cells@[k2] == t && grid.passable(t.x as int, t.y as int) && grid.cell(t.x as int, t.y as int).explore == min);
                    }
                }
                if h(t) {
                    assert(best@.contains(t));
                }
            }
            lemma_keep_where_agree(circle_cells@, f, h);
        }
        best
    }
}

} // verus!
