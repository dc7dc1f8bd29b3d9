use vstd::prelude::*;

verus! {

/// Highest freshness of a cell: the value it takes when a scout observes it.
pub const FRESH: i8 = 30;

/// Freshness of a cell that nobody has observed yet.
pub const UNSEEN: i8 = -1;

/// A grid position: `x` is the row, `y` the column.
#[derive(Clone, Copy, Debug, PartialEq, Eq, Structural)]
pub struct Localization {
    pub x: u32,
    pub y: u32,
}

impl Localization {
    pub fn same_loc(&self, other: &Localization) -> (r: bool)
        ensures
            r == (*self == *other),
    {
        self.x == other.x && self.y == other.y
    }
}

/// What stands on a cell, independently of how it is drawn.
#[derive(Clone, Copy, Debug, PartialEq, Eq, Structural)]
pub enum Terrain {
    Open,
    Obstacle,
    Base,
}

#[derive(Clone, Copy, Debug, PartialEq, Eq, Structural)]
pub struct Cell {
    pub terrain: Terrain,
    pub explore: i8,
}

/// Whether `(x, y)` lies in the 3x3 block centred on `(cx, cy)`.
pub open spec fn within_one(x: int, y: int, cx: int, cy: int) -> bool {
    cx - 1 <= x <= cx + 1 && cy - 1 <= y <= cy + 1
}

/// A cell after one decay step: outside the base footprint a positive
/// freshness drops by one.
pub open spec fn decayed(c: Cell, in_footprint: bool) -> Cell {
    if !in_footprint && c.explore > 0 {
        Cell { explore: (c.explore - 1) as i8, ..c }
    } else {
        c
    }
}

/// A cell as a scout's observation leaves it.
pub open spec fn refreshed(c: Cell) -> Cell {
    Cell { explore: FRESH, ..c }
}

/// A cell with its terrain replaced.
pub open spec fn with_terrain(c: Cell, t: Terrain) -> Cell {
    Cell { terrain: t, ..c }
}

/// The terrain that the layout masks give a cell.
pub open spec fn laid_out(in_footprint: bool, obstacle: bool, safe: bool) -> Terrain {
    if in_footprint {
        Terrain::Base
    } else if obstacle && !safe {
        Terrain::Obstacle
    } else {
        Terrain::Open
    }
}

/// A rows x cols matrix of cells, indexed `cells[x][y]`.
pub struct Grid {
    pub rows: u32,
    pub cols: u32,
    pub cells: Vec<Vec<Cell>>,
}

impl Grid {
    pub open spec fn in_bounds(&self, x: int, y: int) -> bool {
        0 <= x < self.rows && 0 <= y < self.cols
    }

    pub open spec fn cell(&self, x: int, y: int) -> Cell {
        self.cells@[x]@[y]
    }

    pub open spec fn center_x(&self) -> int {
        self.rows as int / 2
    }

    pub open spec fn center_y(&self) -> int {
        self.cols as int / 2
    }

    /// The base footprint: the 3x3 block at the grid's centre.
    pub open spec fn in_footprint(&self, x: int, y: int) -> bool {
        within_one(x, y, self.center_x(), self.center_y())
    }

    /// A cell that an agent may enter.
    pub open spec fn passable(&self, x: int, y: int) -> bool {
        self.in_bounds(x, y) && self.cell(x, y).terrain != Terrain::Obstacle
    }

    pub open spec fn shape_ok(&self) -> bool {
        &&& self.cells@.len() == self.rows
        &&& forall|i: int| 0 <= i < self.rows ==> #[trigger] self.cells@[i]@.len() == self.cols
    }

    /// Well-formed: at least 3x3, rectangular, freshness in `-1..=30`, and the
    /// base footprint always drawn as base and fully fresh.
    pub open spec fn wf(&self) -> bool {
        &&& self.rows >= 3
        &&& self.cols >= 3
        &&& self.shape_ok()
        &&& forall|x: int, y: int|
            #![trigger self.cell(x, y)]
            self.in_bounds(x, y) ==> UNSEEN <= self.cell(x, y).explore <= FRESH
        &&& forall|x: int, y: int|
            #![trigger self.cell(x, y)]
            self.in_bounds(x, y) ==> (self.in_footprint(x, y) <==> self.cell(x, y).terrain
                == Terrain::Base)
        &&& forall|x: int, y: int|
            #![trigger self.cell(x, y)]
            self.in_bounds(x, y) && self.in_footprint(x, y) ==> self.cell(x, y).explore == FRESH
    }

    /// The grid that `new` builds: open and unseen, but for the base footprint.
    pub open spec fn initial_cell(&self, x: int, y: int) -> Cell {
        if self.in_footprint(x, y) {
            Cell { terrain: Terrain::Base, explore: FRESH }
        } else {
            Cell { terrain: Terrain::Open, explore: UNSEEN }
        }
    }

    pub fn new(rows: u32, cols: u32) -> (g: Grid)
        requires
            rows >= 3,
            cols >= 3,
        ensures
            g.wf(),
            g.rows == rows,
            g.cols == cols,
            forall|x: int, y: int|
                #![trigger g.cell(x, y)]
                g.in_bounds(x, y) ==> g.cell(x, y) == g.initial_cell(x, y),
    {
        let cx = rows / 2;
        let cy = cols / 2;
        let mut cells: Vec<Vec<Cell>> = Vec::new();
        let mut i: u32 = 0;
        while i < rows
            invariant
                i <= rows,
                cx == rows / 2,
                cy == cols / 2,
                cells@.len() == i,
                forall|a: int| 0 <= a < i ==> #[trigger] cells@[a]@.len() == cols,
                forall|a: int, b: int|
                    0 <= a < i && 0 <= b < cols ==> #[trigger] cells@[a]@[b] == (if within_one(
                        a,
                        b,
                        cx as int,
                        cy as int,
                    ) {
                        Cell { terrain: Terrain::Base, explore: FRESH }
                    } else {
                        Cell { terrain: Terrain::Open, explore: UNSEEN }
                    }),
            decreases rows - i,
        {
            let mut row: Vec<Cell> = Vec::new();
            let mut j: u32 = 0;
            while j < cols
                invariant
                    j <= cols,
                    i < rows,
                    cx == rows / 2,
                    cy == cols / 2,
                    row@.len() == j,
                    forall|b: int|
                        0 <= b < j ==> #[trigger] row@[b] == (if within_one(
                            i as int,
                            b,
                            cx as int,
                            cy as int,
                        ) {
                            Cell { terrain: Terrain::Base, explore: FRESH }
                        } else {
                            Cell { terrain: Terrain::Open, explore: UNSEEN }
                        }),
                decreases cols - j,
            {
                let base = i + 1 >= cx && i <= cx + 1 && j + 1 >= cy && j <= cy + 1;
                if base {
                    row.push(Cell { terrain: Terrain::Base, explore: FRESH });
                } else {
                    row.push(Cell { terrain: Terrain::Open, explore: UNSEEN });
                }
                j = j + 1;
            }
            cells.push(row);
            i = i + 1;
        }
        Grid { rows, cols, cells }
    }

    /// One decay step over the whole grid: outside the base footprint every
    /// positive freshness drops by one.
    pub fn decay_passage_counters(&mut self)
        requires
            old(self).wf(),
        ensures
            final(self).wf(),
            final(self).rows == old(self).rows,
            final(self).cols == old(self).cols,
            forall|x: int, y: int|
                #![trigger final(self).cell(x, y)]
                final(self).in_bounds(x, y) ==> final(self).cell(x, y) == decayed(
                    old(self).cell(x, y),
                    old(self).in_footprint(x, y),
                ),
    {
        let ghost g0 = *self;
        let cx = self.rows / 2;
        let cy = self.cols / 2;
        let mut i: usize = 0;
        while i < self.rows as usize
            invariant
                i <= self.rows,
                self.rows == g0.rows,
                self.cols == g0.cols,
                cx == g0.rows / 2,
                cy == g0.cols / 2,
                self.shape_ok(),
                g0.wf(),
                forall|x: int, y: int|
                    #![trigger self.cell(x, y)]
                    self.in_bounds(x, y) ==> self.cell(x, y) == if x < i {
                        decayed(g0.cell(x, y), g0.in_footprint(x, y))
                    } else {
                        g0.cell(x, y)
                    },
            decreases self.rows - i,
        {
            let mut j: usize = 0;
            while j < self.cols as usize
                invariant
                    i < self.rows,
                    j <= self.cols,
                    self.rows == g0.rows,
                    self.cols == g0.cols,
                    cx == g0.rows / 2,
                    cy == g0.cols / 2,
                    self.shape_ok(),
                    g0.wf(),
                    forall|x: int, y: int|
                        #![trigger self.cell(x, y)]
                        self.in_bounds(x, y) ==> self.cell(x, y) == if x < i || (x == i && y
                            < j) {
                            decayed(g0.cell(x, y), g0.in_footprint(x, y))
                        } else {
                            g0.cell(x, y)
                        },
                decreases self.cols - j,
            {
                let ii = i as u32;
                let jj = j as u32;
                let fp = ii + 1 >= cx && ii <= cx + 1 && jj + 1 >= cy && jj <= cy + 1;
                let e = self.cells[i][j].explore;
                let ghost before = *self;
                assert(before.cell(i as int, j as int) == g0.cell(i as int, j as int));
                assert(fp == g0.in_footprint(i as int, j as int));
                assert(e == g0.cell(i as int, j as int).explore);
                if !fp && e > 0 {
                    self.cells[i][j].explore = e - 1;
                }
                assert(self.cell(i as int, j as int) == decayed(
                    g0.cell(i as int, j as int),
                    g0.in_footprint(i as int, j as int),
                ));
                assert forall|x: int, y: int|
                    #![trigger self.cell(x, y)]
                    self.in_bounds(x, y) && !(x == i && y == j) implies self.cell(x, y)
                        == before.cell(x, y) by {
                    if x == i {
                        assert(self.cells@[x]@[y] == before.cells@[x]@[y]);
                    }
                }
                j = j + 1;
            }
            i = i + 1;
        }
    }

    /// Marks the 3x3 block around `(x, y)`, clipped to the grid, as just observed.
    pub fn mark_observed(&mut self, x: u32, y: u32)
        requires
            old(self).wf(),
            old(self).in_bounds(x as int, y as int),
        ensures
            final(self).wf(),
            final(self).rows == old(self).rows,
            final(self).cols == old(self).cols,
            forall|a: int, b: int|
                #![trigger final(self).cell(a, b)]
                final(self).in_bounds(a, b) ==> final(self).cell(a, b) == if within_one(
                    a,
                    b,
                    x as int,
                    y as int,
                ) {
                    refreshed(old(self).cell(a, b))
                } else {
                    old(self).cell(a, b)
                },
    {
        let ghost g0 = *self;
        let lo_x: u32 = if x >= 1 { x - 1 } else { 0 };
        let lo_y: u32 = if y >= 1 { y - 1 } else { 0 };
        let mut i: u32 = lo_x;
        while i <= x + 1 && i < self.rows
            invariant
                lo_x <= i,
                x < self.rows,
                y < self.cols,
                lo_x as int == if x >= 1 { x - 1 } else { 0 },
                lo_y as int == if y >= 1 { y - 1 } else { 0 },
                i <= self.rows,
                i <= x as int + 2,
                self.rows == g0.rows,
                self.cols == g0.cols,
                self.shape_ok(),
                g0.wf(),
                forall|a: int, b: int|
                    #![trigger self.cell(a, b)]
                    self.in_bounds(a, b) ==> self.cell(a, b) == if a < i && within_one(
                        a,
                        b,
                        x as int,
                        y as int,
                    ) {
                        refreshed(g0.cell(a, b))
                    } else {
                        g0.cell(a, b)
                    },
            decreases self.rows - i,
        {
            let mut j: u32 = lo_y;
            while j <= y + 1 && j < self.cols
                invariant
                    lo_x <= i,
                    x < self.rows,
                    y < self.cols,
                    i <= x + 1,
                    i < self.rows,
                    lo_x as int == if x >= 1 { x - 1 } else { 0 },
                    lo_y as int == if y >= 1 { y - 1 } else { 0 },
                    lo_y <= j,
                    j <= self.cols,
                    j <= y as int + 2,
                    self.rows == g0.rows,
                    self.cols == g0.cols,
                    self.shape_ok(),
                    g0.wf(),
                    forall|a: int, b: int|
                        #![trigger self.cell(a, b)]
                        self.in_bounds(a, b) ==> self.cell(a, b) == if (a < i || (a == i && b
                            < j)) && within_one(a, b, x as int, y as int) {
                            refreshed(g0.cell(a, b))
                        } else {
                            g0.cell(a, b)
                        },
                decreases self.cols - j,
            {
                let ghost before = *self;
                assert(before.cell(i as int, j as int) == g0.cell(i as int, j as int));
                self.cells[i as usize][j as usize].explore = FRESH;
                assert forall|a: int, b: int|
                    #![trigger self.cell(a, b)]
                    self.in_bounds(a, b) && !(a == i && b == j) implies self.cell(a, b)
                        == before.cell(a, b) by {
                    if a == i {
                        assert(self.cells@[a]@[b] == before.cells@[a]@[b]);
                    }
                }
                j = j + 1;
            }
            i = i + 1;
        }
    }

    /// Lays the terrain out from two masks: a cell is an obstacle where
    /// `obstacle` says so and `safe_zone` does not; the base footprint stays base.
    /// Freshness is kept.
    pub fn apply_layout(&mut self, obstacle: &Vec<Vec<bool>>, safe_zone: &Vec<Vec<bool>>)
        requires
            old(self).wf(),
            obstacle@.len() == old(self).rows,
            safe_zone@.len() == old(self).rows,
            forall|i: int| 0 <= i < old(self).rows ==> #[trigger] obstacle@[i]@.len() == old(self).cols,
            forall|i: int| 0 <= i < old(self).rows ==> #[trigger] safe_zone@[i]@.len() == old(self).cols,
        ensures
            final(self).wf(),
            final(self).rows == old(self).rows,
            final(self).cols == old(self).cols,
            forall|a: int, b: int|
                #![trigger final(self).cell(a, b)]
                final(self).in_bounds(a, b) ==> final(self).cell(a, b) == with_terrain(old(self).cell(a, b), laid_out(old(self).in_footprint(a, b), obstacle@[a]@[b], safe_zone@[a]@[b])),
    {
        let ghost g0 = *self;
        let cx = self.rows / 2;
        let cy = self.cols / 2;
        let mut i: u32 = 0;
        while i < self.rows
            invariant
                i <= self.rows,
                self.rows == g0.rows,
                self.cols == g0.cols,
                cx == g0.rows / 2,
                cy == g0.cols / 2,
                self.shape_ok(),
                g0.wf(),
                obstacle@.len() == g0.rows,
                safe_zone@.len() == g0.rows,
                forall|k: int| 0 <= k < g0.rows ==> #[trigger] obstacle@[k]@.len() == g0.cols,
                forall|k: int| 0 <= k < g0.rows ==> #[trigger] safe_zone@[k]@.len() == g0.cols,
                forall|a: int, b: int|
                    #![trigger self.cell(a, b)]
                    self.in_bounds(a, b) ==> self.cell(a, b) == if a < i {
                        with_terrain(g0.cell(a, b), laid_out(g0.in_footprint(a, b), obstacle@[a]@[b], safe_zone@[a]@[b]))
                    } else {
                        g0.cell(a, b)
                    },
            decreases self.rows - i,
        {
            let mut j: u32 = 0;
            while j < self.cols
                invariant
                    i < self.rows,
                    j <= self.cols,
                    self.rows == g0.rows,
                    self.cols == g0.cols,
                    cx == g0.rows / 2,
                    cy == g0.cols / 2,
                    self.shape_ok(),
                    g0.wf(),
                    obstacle@.len() == g0.rows,
                    safe_zone@.len() == g0.rows,
                    forall|k: int| 0 <= k < g0.rows ==> #[trigger] obstacle@[k]@.len() == g0.cols,
                    forall|k: int| 0 <= k < g0.rows ==> #[trigger] safe_zone@[k]@.len() == g0.cols,
                    forall|a: int, b: int|
                        #![trigger self.cell(a, b)]
                        self.in_bounds(a, b) ==> self.cell(a, b) == if a < i || (a == i && b < j) {
                            with_terrain(g0.cell(a, b), laid_out(g0.in_footprint(a, b), obstacle@[a]@[b], safe_zone@[a]@[b]))
                        } else {
                            g0.cell(a, b)
                        },
                decreases self.cols - j,
            {
                let fp = i + 1 >= cx && i <= cx + 1 && j + 1 >= cy && j <= cy + 1;
                let t = if fp {
                    Terrain::Base
                } else if obstacle[i as usize][j as usize] && !safe_zone[i as usize][j as usize] {
                    Terrain::Obstacle
                } else {
                    Terrain::Open
                };
                let ghost before = *self;
                assert(before.cell(i as int, j as int) == g0.cell(i as int, j as int));
                assert(fp == g0.in_footprint(i as int, j as int));
                self.cells[i as usize][j as usize].terrain = t;
                assert forall|a: int, b: int|
                    #![trigger self.cell(a, b)]
                    self.in_bounds(a, b) && !(a == i && b == j) implies self.cell(a, b)
                        == before.cell(a, b) by {
                    if a == i {
                        assert(self.cells@[a]@[b] == before.cells@[a]@[b]);
                    }
                }
                j = j + 1;
            }
            i = i + 1;
        }
    }

    pub fn is_passable(&self, x: u32, y: u32) -> (r: bool)
        requires
            self.wf(),
        ensures
            r == self.passable(x as int, y as int),
    {
        x < self.rows && y < self.cols && self.cells[x as usize][y as usize].terrain
            != Terrain::Obstacle
    }

    pub fn explore_at(&self, x: u32, y: u32) -> (r: i8)
        requires
            self.wf(),
            self.in_bounds(x as int, y as int),
        ensures
            r == self.cell(x as int, y as int).explore,
    {
        self.cells[x as usize][y as usize].explore
    }
}

} // verus!
