use vstd::prelude::*;

use crate::events::EventType;
use crate::gatherer::{decided, find_resource_index, ids_unique, index_of, Gatherer};
use crate::grid::{within_one, Grid, Localization, Terrain};
use crate::chance::{draw_cell, first_u64, seeded_cell, seeded_u64};
use crate::id_generator::IDGenerator;
use crate::resources::{
    extracted_from, split_by_kind, ascii_eq_ignore_case, same_ignoring_case, kind_glyph, max_extractable, Resource, ResourceKind, EXTRACTION_QUANTITY, EXTRACTION_RATE_PERCENT,
};
use crate::scout::{scout_moved, Scout};

verus! {

/// The depot at the grid's centre and what has been delivered to it.
#[derive(Clone, Copy, Debug)]
pub struct Base {
    pub loc: Localization,
    pub crystal: u64,
    pub energy: u64,
}

impl Base {
    pub fn new(rows: u32, cols: u32) -> (b: Self)
        ensures
            b.loc == (Localization { x: rows / 2, y: cols / 2 }),
            b.crystal == 0,
            b.energy == 0,
    {
        Base { loc: Localization { x: rows / 2, y: cols / 2 }, crystal: 0, energy: 0 }
    }
}

/// Crystal carried by a sequence of gatherers.
pub open spec fn carried_crystal(gs: Seq<Gatherer>) -> int
    decreases gs.len(),
{
    if gs.len() == 0 {
        0
    } else {
        carried_crystal(gs.drop_last()) + gs.last().inventory.0
    }
}

/// Energy carried by a sequence of gatherers.
pub open spec fn carried_energy(gs: Seq<Gatherer>) -> int
    decreases gs.len(),
{
    if gs.len() == 0 {
        0
    } else {
        carried_energy(gs.drop_last()) + gs.last().inventory.1
    }
}

/// What a deposit still holds of a kind.
pub open spec fn holds(r: Resource, kind: ResourceKind) -> int {
    if r.kind == kind {
        r.remaining_quantity as int
    } else {
        0
    }
}

/// What a sequence of deposits still holds of a kind.
pub open spec fn stored(rs: Seq<Resource>, kind: ResourceKind) -> int
    decreases rs.len(),
{
    if rs.len() == 0 {
        0
    } else {
        stored(rs.drop_last(), kind) + holds(rs.last(), kind)
    }
}

proof fn lemma_carried_update(gs: Seq<Gatherer>, i: int, g: Gatherer)
    requires
        0 <= i < gs.len(),
    ensures
        carried_crystal(gs.update(i, g)) == carried_crystal(gs) - gs[i].inventory.0 + g.inventory.0,
        carried_energy(gs.update(i, g)) == carried_energy(gs) - gs[i].inventory.1 + g.inventory.1,
    decreases gs.len(),
{
    if i == gs.len() - 1 {
        assert(gs.update(i, g).drop_last() =~= gs.drop_last());
    } else {
        assert(gs.update(i, g).drop_last() =~= gs.drop_last().update(i, g));
        lemma_carried_update(gs.drop_last(), i, g);
    }
}

proof fn lemma_carried_bounds(gs: Seq<Gatherer>, i: int)
    requires
        0 <= i < gs.len(),
    ensures
        0 <= gs[i].inventory.0 <= carried_crystal(gs),
        0 <= gs[i].inventory.1 <= carried_energy(gs),
    decreases gs.len(),
{
    lemma_carried_nonneg(gs.drop_last());
    if i < gs.len() - 1 {
        lemma_carried_bounds(gs.drop_last(), i);
    }
}

proof fn lemma_carried_nonneg(gs: Seq<Gatherer>)
    ensures
        carried_crystal(gs) >= 0,
        carried_energy(gs) >= 0,
    decreases gs.len(),
{
    if gs.len() > 0 {
        lemma_carried_nonneg(gs.drop_last());
    }
}

proof fn lemma_stored_nonneg(rs: Seq<Resource>, kind: ResourceKind)
    ensures
        stored(rs, kind) >= 0,
    decreases rs.len(),
{
    if rs.len() > 0 {
        lemma_stored_nonneg(rs.drop_last(), kind);
    }
}

proof fn lemma_stored_update(rs: Seq<Resource>, i: int, r: Resource, kind: ResourceKind)
    requires
        0 <= i < rs.len(),
    ensures
        stored(rs.update(i, r), kind) == stored(rs, kind) - holds(rs[i], kind) + holds(r, kind),
    decreases rs.len(),
{
    if i == rs.len() - 1 {
        assert(rs.update(i, r).drop_last() =~= rs.drop_last());
    } else {
        assert(rs.update(i, r).drop_last() =~= rs.drop_last().update(i, r));
        lemma_stored_update(rs.drop_last(), i, r, kind);
    }
}

proof fn lemma_stored_push(rs: Seq<Resource>, r: Resource, kind: ResourceKind)
    ensures
        stored(rs.push(r), kind) == stored(rs, kind) + holds(r, kind),
{
    assert(rs.push(r).drop_last() =~= rs);
}

proof fn lemma_carried_push(gs: Seq<Gatherer>, g: Gatherer)
    ensures
        carried_crystal(gs.push(g)) == carried_crystal(gs) + g.inventory.0,
        carried_energy(gs.push(g)) == carried_energy(gs) + g.inventory.1,
{
    assert(gs.push(g).drop_last() =~= gs);
}

proof fn lemma_carried_concat(a: Seq<Gatherer>, b: Seq<Gatherer>)
    ensures
        carried_crystal(a + b) == carried_crystal(a) + carried_crystal(b),
        carried_energy(a + b) == carried_energy(a) + carried_energy(b),
    decreases b.len(),
{
    if b.len() == 0 {
        assert(a + b =~= a);
    } else {
        assert((a + b).drop_last() =~= a + b.drop_last());
        lemma_carried_concat(a, b.drop_last());
    }
}

proof fn lemma_carried_insert(s: Seq<Gatherer>, k: int, g: Gatherer)
    requires
        0 <= k <= s.len(),
    ensures
        carried_crystal(s.insert(k, g)) == carried_crystal(s) + g.inventory.0,
        carried_energy(s.insert(k, g)) == carried_energy(s) + g.inventory.1,
{
    let a = s.subrange(0, k);
    let b = s.subrange(k, s.len() as int);
    assert(s =~= a + b);
    assert(s.insert(k, g) =~= a.push(g) + b);
    lemma_carried_concat(a, b);
    lemma_carried_concat(a.push(g), b);
    lemma_carried_push(a, g);
}

/// Some scout's 3x3 neighbourhood covers `(x, y)`.
pub open spec fn observed(scouts: Seq<Scout>, x: int, y: int) -> bool {
    exists|i: int| 0 <= i < scouts.len() && within_one(x, y, #[trigger] scouts[i].loc.x as int, scouts[i].loc.y as int)
}

/// Whether `v` holds `id`.
fn holds_id(v: &Vec<u32>, id: u32) -> (r: bool)
    ensures
        r == v@.contains(id),
{
    let mut i: usize = 0;
    while i < v.len()
        invariant
            i <= v@.len(),
            forall|k: int| 0 <= k < i ==> v@[k] != id,
        decreases v@.len() - i,
    {
        if v[i] == id {
            return true;
        }
        i = i + 1;
    }
    false
}

/// Whether some scout's 3x3 neighbourhood covers `loc`.
fn seen_by(scouts: &Vec<Scout>, loc: Localization) -> (r: bool)
    ensures
        r == observed(scouts@, loc.x as int, loc.y as int),
{
    let mut i: usize = 0;
    while i < scouts.len()
        invariant
            i <= scouts@.len(),
            forall|k: int| 0 <= k < i ==> !within_one(loc.x as int, loc.y as int, #[trigger] scouts@[k].loc.x as int, scouts@[k].loc.y as int),
        decreases scouts@.len() - i,
    {
        let s = scouts[i].loc;
        if (loc.x as u64) + 1 >= s.x as u64 && (loc.x as u64) <= (s.x as u64) + 1
            && (loc.y as u64) + 1 >= s.y as u64 && (loc.y as u64) <= (s.y as u64) + 1 {
            return true;
        }
        i = i + 1;
    }
    false
}

/// The material that a reply hands to the base: `(crystal, energy)`.
pub open spec fn delivered(r: EventType) -> (int, int) {
    match r {
        EventType::Deposit(a) => (a.0 as int, a.1 as int),
        _ => (0, 0),
    }
}

/// A reply that a gatherer's decision can give: an extraction request is for
/// the standard quantity and rate, made below capacity.
pub open spec fn reply_fits(g: Gatherer, r: EventType) -> bool {
    match r {
        EventType::Extract(_, req) => req == (EXTRACTION_QUANTITY, EXTRACTION_RATE_PERCENT) && g.load() < g.inventory_size,
        _ => true,
    }
}


/// What the collect phase works on: deposits, the base's crystal and energy,
/// and the gatherers.
pub type Account = (Seq<Resource>, int, int, Seq<Gatherer>);

/// `g` holding `inv`.
pub open spec fn with_inventory(g: Gatherer, inv: (u16, u16)) -> Gatherer {
    Gatherer { inventory: inv, ..g }
}

/// A deposit holding `remaining`.
pub open spec fn with_remaining(r: Resource, remaining: int) -> Resource {
    Resource { remaining_quantity: remaining as u16, ..r }
}

/// The coordinator's answer to gatherer `i`'s reply `r`: a deposit goes to the
/// base; an extraction request takes `extracted_from` the named deposit, if it
/// is present, and hands that amount to the gatherer by kind; other replies
/// change nothing.
pub open spec fn serve(st: Account, i: int, r: EventType) -> Account {
    match r {
        EventType::Deposit(a) => (st.0, st.1 + a.0, st.2 + a.1, st.3),
        EventType::Extract(id, req) => if present(st.0, id) {
            let k = index_of(st.0, id)->0;
            let d = st.0[k];
            let taken = extracted_from(d.remaining_quantity as int, req.0 as int, req.1 as int);
            let got = split_by_kind(d.kind, taken as u16);
            let g = st.3[i];
            (
                st.0.update(k, with_remaining(d, d.remaining_quantity - taken)),
                st.1,
                st.2,
                st.3.update(i, with_inventory(g, ((g.inventory.0 + got.0) as u16, (g.inventory.1 + got.1) as u16))),
            )
        } else {
            st
        },
        _ => st,
    }
}

/// The first `n` replies answered in order, reply `i` from gatherer `i`.
pub open spec fn serve_all(st: Account, replies: Seq<EventType>, n: nat) -> Account
    decreases n,
{
    if n == 0 {
        st
    } else {
        serve(serve_all(st, replies, (n - 1) as nat), n - 1, replies[n - 1])
    }
}

/// The deposits that still hold something, in order.
pub open spec fn keep_stocked(rs: Seq<Resource>) -> Seq<Resource>
    decreases rs.len(),
{
    if rs.len() == 0 {
        rs
    } else if rs.last().remaining_quantity > 0 {
        keep_stocked(rs.drop_last()).push(rs.last())
    } else {
        keep_stocked(rs.drop_last())
    }
}

/// The ids of `fs` whose deposit is in `rs`, in order.
pub open spec fn keep_present(fs: Seq<u32>, rs: Seq<Resource>) -> Seq<u32>
    decreases fs.len(),
{
    if fs.len() == 0 {
        fs
    } else if present(rs, fs.last()) {
        keep_present(fs.drop_last(), rs).push(fs.last())
    } else {
        keep_present(fs.drop_last(), rs)
    }
}

/// The discovered list after the scouts look around: the ids of the deposits
/// they cover, in ledger order, appended unless already listed.
pub open spec fn discover(found: Seq<u32>, rs: Seq<Resource>, scouts: Seq<Scout>) -> Seq<u32>
    decreases rs.len(),
{
    if rs.len() == 0 {
        found
    } else {
        let a = discover(found, rs.drop_last(), scouts);
        let r = rs.last();
        if observed(scouts, r.loc.x as int, r.loc.y as int) && !a.contains(r.id) {
            a.push(r.id)
        } else {
            a
        }
    }
}

/// What one tick does, from `old` to `new`. Every scout makes one exploration
/// move on the old grid. Every gatherer, in id order, decides against the
/// snapshot of the deposits and the discovered list and gets its reply
/// answered at once (`serve_all`). Then exhausted deposits are pruned with
/// their discovered ids, freshness decays, and the scouts observe their
/// neighbourhoods and discover the deposits there.
pub open spec fn ticked(old: Game, new: Game) -> bool {
    &&& new.wf()
    &&& new.age == old.age.wrapping_add(1)
    &&& new.seed == old.seed
    &&& new.stock == old.stock
    &&& new.crystal_total() == old.crystal_total()
    &&& new.energy_total() == old.energy_total()
    &&& new.base.crystal >= old.base.crystal
    &&& new.base.energy >= old.base.energy
    &&& new.base.loc == old.base.loc
    &&& new.grid.rows == old.grid.rows
    &&& new.grid.cols == old.grid.cols
    &&& forall|x: int, y: int|
        #![trigger new.grid.cell(x, y)]
        new.grid.in_bounds(x, y) ==> new.grid.cell(x, y) == if observed(new.scouts@, x, y) {
            crate::grid::refreshed(crate::grid::decayed(old.grid.cell(x, y), old.grid.in_footprint(x, y)))
        } else {
            crate::grid::decayed(old.grid.cell(x, y), old.grid.in_footprint(x, y))
        }
    &&& new.scouts@.len() == old.scouts@.len()
    &&& forall|i: int|
        0 <= i < new.scouts@.len() ==> scout_moved(old.grid, old.seed, old.scouts@[i], #[trigger] new.scouts@[i])
    &&& exists|mids: Seq<Gatherer>, replies: Seq<EventType>|
        {
            &&& mids.len() == old.gatherers@.len()
            &&& replies.len() == old.gatherers@.len()
            &&& forall|i: int|
                0 <= i < mids.len() ==> decided(
                    old.grid,
                    old.finded_resources@,
                    old.resources@,
                    old.base.loc,
                    old.seed,
                    old.gatherers@[i],
                    #[trigger] mids[i],
                    replies[i],
                )
            &&& served(old, new, mids, replies)
        }
    &&& forall|k: int|
        0 <= k < new.resources@.len() ==> (#[trigger] new.resources@[k]).remaining_quantity > 0
    &&& forall|k: int|
        0 <= k < new.resources@.len() ==> exists|j: int|
            0 <= j < old.resources@.len() && same_deposit_drawn_down(old.resources@[j], #[trigger] new.resources@[k])
    &&& new.finded_resources@ == discover(
        keep_present(old.finded_resources@, new.resources@),
        new.resources@,
        new.scouts@,
    )
}

/// The gatherers, base and deposits after the tick are those that answering
/// `replies` in order gives, with exhausted deposits pruned.
pub open spec fn served(old: Game, new: Game, mids: Seq<Gatherer>, replies: Seq<EventType>) -> bool {
    let c = serve_all(
        (old.resources@, old.base.crystal as int, old.base.energy as int, mids),
        replies,
        mids.len(),
    );
    &&& new.gatherers@ == c.3
    &&& new.base.crystal == c.1
    &&& new.base.energy == c.2
    &&& new.resources@ == keep_stocked(c.0)
}

/// `b` is deposit `a` with possibly less left in it.
pub open spec fn same_deposit_drawn_down(a: Resource, b: Resource) -> bool {
    &&& b.id == a.id
    &&& b.loc == a.loc
    &&& b.kind == a.kind
    &&& b.initial_quantity == a.initial_quantity
    &&& b.remaining_quantity <= a.remaining_quantity
}


/// Some agent of the sequence stands at `p`.
pub open spec fn scout_at(scouts: Seq<Scout>, p: Localization) -> bool {
    exists|i: int| 0 <= i < scouts.len() && #[trigger] scouts[i].loc == p
}

pub open spec fn gatherer_at(gatherers: Seq<Gatherer>, p: Localization) -> bool {
    exists|i: int| 0 <= i < gatherers.len() && #[trigger] gatherers[i].loc == p
}

/// `k` is the first deposit located at `p`.
pub open spec fn first_at(rs: Seq<Resource>, p: Localization, k: int) -> bool {
    0 <= k < rs.len() && rs[k].loc == p && forall|j: int| 0 <= j < k ==> #[trigger] rs[j].loc != p
}

/// A deposit is located at `p`.
pub open spec fn deposit_at(rs: Seq<Resource>, p: Localization) -> bool {
    exists|k: int| 0 <= k < rs.len() && #[trigger] rs[k].loc == p
}

/// The cell that a fresh grid laid out from the two masks holds at `(x, y)`.
pub open spec fn layout_cell(rows: u32, cols: u32, obstacle: Seq<Vec<bool>>, safe_zone: Seq<Vec<bool>>, x: int, y: int) -> crate::grid::Cell {
    let fp = within_one(x, y, rows as int / 2, cols as int / 2);
    crate::grid::Cell {
        terrain: crate::grid::laid_out(fp, obstacle[x]@[y], safe_zone[x]@[y]),
        explore: if fp { crate::grid::FRESH } else { crate::grid::UNSEEN },
    }
}

/// The two kinds of agent.
#[derive(Clone, Copy, Debug, PartialEq, Eq, Structural)]
pub enum Mission {
    Scout,
    Gatherer,
}

pub open spec fn mission_of_label(s: Seq<char>) -> Option<Mission> {
    if same_ignoring_case(s, "scout"@) {
        Some(Mission::Scout)
    } else if same_ignoring_case(s, "gatherer"@) {
        Some(Mission::Gatherer)
    } else {
        None
    }
}

impl Mission {
    /// Parses a mission label, ignoring ASCII case.
    pub fn from_str(mission_str: &str) -> (r: Option<Mission>)
        ensures
            r == mission_of_label(mission_str@),
    {
        if ascii_eq_ignore_case(mission_str, "scout") {
            Some(Mission::Scout)
        } else if ascii_eq_ignore_case(mission_str, "gatherer") {
            Some(Mission::Gatherer)
        } else {
            None
        }
    }
}

/// Random draws made for a new deposit before the grid is scanned in order.
pub const MAX_PLACEMENT_DRAWS: u32 = 64;

/// The quantity each generated deposit starts with.
pub const DEPOSIT_QUANTITY: u16 = 40;

/// `after` is `mid` once the coordinator has served its reply `r`: only an
/// extraction request changes it, adding at most one request's worth to its
/// inventory.
pub open spec fn collected(mid: Gatherer, after: Gatherer, r: EventType) -> bool {
    &&& after.id == mid.id
    &&& after.loc == mid.loc
    &&& after.target == mid.target
    &&& after.path@ == mid.path@
    &&& after.inventory_size == mid.inventory_size
    &&& if r is Extract {
        &&& after.inventory.0 >= mid.inventory.0
        &&& after.inventory.1 >= mid.inventory.1
        &&& after.load() <= mid.load() + EXTRACTION_QUANTITY
    } else {
        after.inventory == mid.inventory
    }
}

proof fn lemma_serve_frame(st: Account, reps: Seq<EventType>, m: nat, j: int, x: Gatherer)
    requires
        m <= j < st.3.len(),
    ensures
        ({
            let c = serve_all(st, reps, m);
            &&& serve_all((st.0, st.1, st.2, st.3.update(j, x)), reps, m) == (c.0, c.1, c.2, c.3.update(j, x))
            &&& c.3.len() == st.3.len()
        }),
    decreases m,
{
    if m > 0 {
        lemma_serve_frame(st, reps, (m - 1) as nat, j, x);
        let c = serve_all(st, reps, (m - 1) as nat);
        let i = m - 1;
        let r = reps[i];
        let cu = (c.0, c.1, c.2, c.3.update(j, x));
        assert(cu.3[i] == c.3[i]);
        match r {
            EventType::Extract(id, req) => {
                if present(c.0, id) {
                    let a = serve(c, i, r);
                    let b = serve(cu, i, r);
                    assert(b.3 =~= a.3.update(j, x));
                }
            },
            _ => {},
        }
    }
}

proof fn lemma_serve_prefix(st: Account, reps: Seq<EventType>, r: EventType, m: nat)
    requires
        m <= reps.len(),
    ensures
        serve_all(st, reps.push(r), m) == serve_all(st, reps, m),
    decreases m,
{
    if m > 0 {
        lemma_serve_prefix(st, reps, r, (m - 1) as nat);
        assert(reps.push(r)[m - 1] == reps[m - 1]);
    }
}

/// The kind of the `i`-th generated deposit: crystal and energy in turn.
pub open spec fn generated_kind(i: int) -> ResourceKind {
    if i % 2 == 0 {
        ResourceKind::Crystal
    } else {
        ResourceKind::Energy
    }
}

/// `w` lists `n` distinct cells that are free in `g`.
pub open spec fn free_cells_listed(g: Game, w: Seq<Localization>, n: int) -> bool {
    &&& w.len() == n
    &&& w.no_duplicates()
    &&& forall|i: int| 0 <= i < w.len() ==> g.free_cell(#[trigger] w[i])
}

/// What `generate_resources` needs to add all `number` deposits: the next
/// `number` ids can be issued and none is in the ledger, `number` cells are
/// free, and the account of material can take them.
pub open spec fn room_for_deposits(g: Game, gen: IDGenerator, number: int) -> bool {
    &&& gen.last() + number <= u32::MAX
    &&& forall|k: int| 1 <= k <= number ==> !present(g.resources@, #[trigger] ((gen.last() + k) as u32))
    &&& exists|w: Seq<Localization>| #[trigger] free_cells_listed(g, w, number)
    &&& g.stock + DEPOSIT_QUANTITY * number <= u64::MAX
}

proof fn lemma_free_after_push(a: Game, b: Game, loc: Localization, w: Seq<Localization>, n: int)
    requires
        free_cells_listed(a, w, n),
        n >= 1,
        b.grid == a.grid,
        forall|q: Localization| deposit_at(b.resources@, q) <==> deposit_at(a.resources@, q) || q == loc,
    ensures
        exists|w2: Seq<Localization>| #[trigger] free_cells_listed(b, w2, n - 1),
{
    if w.contains(loc) {
        let idx = choose|idx: int| 0 <= idx < w.len() && w[idx] == loc;
        let w2 = w.remove(idx);
        assert forall|x: int, y: int| 0 <= x < w2.len() && 0 <= y < w2.len() && x != y implies w2[x] != w2[y] by {
            let xo = if x < idx { x } else { x + 1 };
            let yo = if y < idx { y } else { y + 1 };
            assert(w2[x] == w[xo] && w2[y] == w[yo]);
        }
        assert forall|i: int| 0 <= i < w2.len() implies b.free_cell(#[trigger] w2[i]) by {
            let io = if i < idx { i } else { i + 1 };
            assert(w2[i] == w[io]);
            assert(a.free_cell(w[io]));
            assert(w[io] != loc);
        }
        assert(free_cells_listed(b, w2, n - 1));
    } else {
        let w2 = w.drop_last();
        assert forall|i: int| 0 <= i < w2.len() implies b.free_cell(#[trigger] w2[i]) by {
            assert(w2[i] == w[i]);
            assert(a.free_cell(w[i]));
            assert(w[i] != loc);
        }
        assert(free_cells_listed(b, w2, n - 1));
    }
}

/// `add_scout`'s outcome: a scout with the next id at `(x, y)` appended when
/// the cell is on the grid and an id can be issued; else nothing changes.
pub open spec fn scout_added(old: Game, new: Game, x: u32, y: u32, gen0: IDGenerator, gen1: IDGenerator) -> bool {
    if old.grid.in_bounds(x as int, y as int) && gen0.can_issue() {
        &&& new.scouts@.len() == old.scouts@.len() + 1
        &&& new.scouts@.drop_last() == old.scouts@
        &&& new.scouts@.last().id == gen0.last() + 1
        &&& new.scouts@.last().loc == (Localization { x, y })
        &&& new.scouts@.last().prev_loc == (Localization { x, y })
        &&& gen1.last() == gen0.last() + 1
    } else {
        new.scouts@ == old.scouts@ && gen1 == gen0
    }
}

/// `add_gatherer`'s outcome: an empty-handed gatherer with the next id at
/// `(x, y)` inserted after every gatherer whose id is not larger, when the
/// cell is on the grid and an id can be issued; else nothing changes.
pub open spec fn gatherer_added(old: Game, new: Game, x: u32, y: u32, gen0: IDGenerator, gen1: IDGenerator) -> bool {
    if old.grid.in_bounds(x as int, y as int) && gen0.can_issue() {
        &&& exists|k: int|
            0 <= k <= old.gatherers@.len() && new.gatherers@ == old.gatherers@.insert(k, #[trigger] new.gatherers@[k])
                && (forall|j: int| 0 <= j < k ==> old.gatherers@[j].id <= new.gatherers@[k].id)
                && (forall|j: int| k <= j < old.gatherers@.len() ==> old.gatherers@[j].id > new.gatherers@[k].id)
                && {
                let g = new.gatherers@[k];
                &&& g.id == gen0.last() + 1
                &&& g.loc == (Localization { x, y })
                &&& g.target is None
                &&& g.inventory == (0u16, 0u16)
                &&& g.inventory_size == crate::gatherer::INVENTORY_SIZE
                &&& g.path@.len() == 0
            }
        &&& gen1.last() == gen0.last() + 1
    } else {
        new.gatherers@ == old.gatherers@ && gen1 == gen0
    }
}

/// `w` lists `n` distinct cells on a rows x cols grid that the layout from
/// the two masks leaves open.
pub open spec fn open_cells_listed(
    rows: u32,
    cols: u32,
    obstacle: Seq<Vec<bool>>,
    safe_zone: Seq<Vec<bool>>,
    w: Seq<Localization>,
    n: int,
) -> bool {
    &&& w.len() == n
    &&& w.no_duplicates()
    &&& forall|i: int|
        0 <= i < w.len() ==> (#[trigger] w[i]).x < rows && w[i].y < cols && layout_cell(
            rows,
            cols,
            obstacle,
            safe_zone,
            w[i].x as int,
            w[i].y as int,
        ).terrain == Terrain::Open
}

/// `p` comes no later than `q` in row-major order.
pub open spec fn row_major_le(p: Localization, q: Localization) -> bool {
    p.x < q.x || (p.x == q.x && p.y <= q.y)
}

/// A deposit with identifier `id` is in `resources`.
pub open spec fn present(resources: Seq<Resource>, id: u32) -> bool {
    exists|j: int| 0 <= j < resources.len() && resources[j].id == id
}

fn scout_here(scouts: &Vec<Scout>, p: Localization) -> (r: bool)
    ensures
        r == scout_at(scouts@, p),
{
    let mut i: usize = 0;
    while i < scouts.len()
        invariant
            i <= scouts@.len(),
            forall|k: int| 0 <= k < i ==> #[trigger] scouts@[k].loc != p,
        decreases scouts@.len() - i,
    {
        if scouts[i].loc.x == p.x && scouts[i].loc.y == p.y {
            return true;
        }
        i = i + 1;
    }
    false
}

fn gatherer_here(gatherers: &Vec<Gatherer>, p: Localization) -> (r: bool)
    ensures
        r == gatherer_at(gatherers@, p),
{
    let mut i: usize = 0;
    while i < gatherers.len()
        invariant
            i <= gatherers@.len(),
            forall|k: int| 0 <= k < i ==> #[trigger] gatherers@[k].loc != p,
        decreases gatherers@.len() - i,
    {
        if gatherers[i].loc.x == p.x && gatherers[i].loc.y == p.y {
            return true;
        }
        i = i + 1;
    }
    false
}

/// The index of the first deposit located at `p`, if any.
pub fn deposit_index_at(resources: &Vec<Resource>, p: Localization) -> (r: Option<usize>)
    ensures
        (r matches Some(k) ==> first_at(resources@, p, k as int)),
        r is None <==> !deposit_at(resources@, p),
{
    let mut i: usize = 0;
    while i < resources.len()
        invariant
            i <= resources@.len(),
            forall|k: int| 0 <= k < i ==> #[trigger] resources@[k].loc != p,
        decreases resources@.len() - i,
    {
        if resources[i].loc.x == p.x && resources[i].loc.y == p.y {
            return Some(i);
        }
        i = i + 1;
    }
    None
}

/// The coordinator: the grid, the ledger of deposits with the ids scouts have
/// discovered, the base, and the agents, which it advances one tick at a time.
pub struct Game {
    pub seed: u64,
    pub grid: Grid,
    pub scouts: Vec<Scout>,
    pub gatherers: Vec<Gatherer>,
    pub resources: Vec<Resource>,
    pub finded_resources: Vec<u32>,
    pub age: u64,
    pub base: Base,
    /// All material in play: at the base, carried, or still in deposits.
    pub stock: u64,
    pub display_void: char,
    pub display_obstacle: char,
    pub display_base: char,
    pub display_scout: char,
    pub display_gatherer: char,
}

impl Game {
    pub open spec fn crystal_total(&self) -> int {
        self.base.crystal + carried_crystal(self.gatherers@) + stored(self.resources@, ResourceKind::Crystal)
    }

    pub open spec fn energy_total(&self) -> int {
        self.base.energy + carried_energy(self.gatherers@) + stored(self.resources@, ResourceKind::Energy)
    }

    /// The ledger: deposits within their bounds, on the grid, with distinct ids;
    /// discovered ids distinct and all of present deposits.
    pub open spec fn ledger_ok(&self) -> bool {
        &&& forall|k: int|
            0 <= k < self.resources@.len() ==> (#[trigger] self.resources@[k]).wf()
                && self.grid.in_bounds(self.resources@[k].loc.x as int, self.resources@[k].loc.y as int)
        &&& ids_unique(self.resources@)
        &&& self.finded_resources@.no_duplicates()
        &&& forall|k: int|
            0 <= k < self.finded_resources@.len() ==> present(self.resources@, #[trigger] self.finded_resources@[k])
    }

    pub open spec fn agents_ok(&self) -> bool {
        &&& forall|i: int| 0 <= i < self.scouts@.len() ==> (#[trigger] self.scouts@[i]).wf(self.grid)
        &&& forall|i: int| 0 <= i < self.gatherers@.len() ==> (#[trigger] self.gatherers@[i]).wf(self.grid)
        &&& forall|a: int, b: int|
            #![trigger self.gatherers@[a], self.gatherers@[b]]
            0 <= a < b < self.gatherers@.len() ==> self.gatherers@[a].id <= self.gatherers@[b].id
    }

    /// Everything but the account of material.
    pub open spec fn wf_core(&self) -> bool {
        &&& self.grid.wf()
        &&& self.base.loc.x == self.grid.rows / 2
        &&& self.base.loc.y == self.grid.cols / 2
        &&& self.agents_ok()
        &&& self.ledger_ok()
    }

    pub open spec fn wf(&self) -> bool {
        &&& self.wf_core()
        &&& self.stock == self.crystal_total() + self.energy_total()
    }

    /// A game with no deposits and no agents on a fresh grid.
    pub fn new(
        rows: u32,
        cols: u32,
        seed: u64,
        display_void: char,
        display_obstacle: char,
        display_base: char,
        display_scout: char,
        display_gatherer: char,
    ) -> (g: Self)
        requires
            rows >= 3,
            cols >= 3,
        ensures
            g.wf(),
            g.grid.rows == rows,
            g.grid.cols == cols,
            forall|x: int, y: int|
                #![trigger g.grid.cell(x, y)]
                g.grid.in_bounds(x, y) ==> g.grid.cell(x, y) == g.grid.initial_cell(x, y),
            g.seed == seed,
            g.age == 0,
            g.scouts@.len() == 0,
            g.gatherers@.len() == 0,
            g.resources@.len() == 0,
            g.finded_resources@.len() == 0,
            g.base.crystal == 0,
            g.base.energy == 0,
            g.display_void == display_void,
            g.display_obstacle == display_obstacle,
            g.display_base == display_base,
            g.display_scout == display_scout,
            g.display_gatherer == display_gatherer,
    {
        let g = Game {
            seed,
            grid: Grid::new(rows, cols),
            scouts: Vec::new(),
            gatherers: Vec::new(),
            resources: Vec::new(),
            finded_resources: Vec::new(),
            age: 0,
            base: Base::new(rows, cols),
            stock: 0,
            display_void,
            display_obstacle,
            display_base,
            display_scout,
            display_gatherer,
        };
        proof {
            assert(g.gatherers@ =~= Seq::<Gatherer>::empty());
            assert(g.resources@ =~= Seq::<Resource>::empty());
        }
        g
    }

    /// Lays out obstacles from the two masks (see `Grid::apply_layout`).
    pub fn generate_map_obstacles(&mut self, obstacle: &Vec<Vec<bool>>, safe_zone: &Vec<Vec<bool>>)
        requires
            old(self).wf(),
            obstacle@.len() == old(self).grid.rows,
            safe_zone@.len() == old(self).grid.rows,
            forall|i: int| 0 <= i < old(self).grid.rows ==> #[trigger] obstacle@[i]@.len() == old(self).grid.cols,
            forall|i: int| 0 <= i < old(self).grid.rows ==> #[trigger] safe_zone@[i]@.len() == old(self).grid.cols,
        ensures
            final(self).wf(),
            final(self).grid.rows == old(self).grid.rows,
            final(self).grid.cols == old(self).grid.cols,
            forall|a: int, b: int|
                #![trigger final(self).grid.cell(a, b)]
                final(self).grid.in_bounds(a, b) ==> final(self).grid.cell(a, b) == crate::grid::with_terrain(
                    old(self).grid.cell(a, b),
                    crate::grid::laid_out(old(self).grid.in_footprint(a, b), obstacle@[a]@[b], safe_zone@[a]@[b]),
                ),
            final(self).scouts@ == old(self).scouts@,
            final(self).gatherers@ == old(self).gatherers@,
            final(self).resources@ == old(self).resources@,
            final(self).finded_resources@ == old(self).finded_resources@,
            final(self).base == old(self).base,
            final(self).seed == old(self).seed,
            final(self).age == old(self).age,
    {
        self.grid.apply_layout(obstacle, safe_zone);
        proof {
            assert forall|i: int| 0 <= i < self.scouts@.len() implies (#[trigger] self.scouts@[i]).wf(self.grid) by {
                assert(old(self).scouts@[i].wf(old(self).grid));
            }
            assert forall|i: int| 0 <= i < self.gatherers@.len() implies (#[trigger] self.gatherers@[i]).wf(self.grid) by {
                assert(old(self).gatherers@[i].wf(old(self).grid));
            }
        }
    }

    /// The decay pass: see `Grid::decay_passage_counters`.
    pub fn decay_passage_counters(&mut self)
        requires
            old(self).wf(),
        ensures
            final(self).wf(),
            final(self).grid.rows == old(self).grid.rows,
            final(self).grid.cols == old(self).grid.cols,
            forall|x: int, y: int|
                #![trigger final(self).grid.cell(x, y)]
                final(self).grid.in_bounds(x, y) ==> final(self).grid.cell(x, y) == crate::grid::decayed(
                    old(self).grid.cell(x, y),
                    old(self).grid.in_footprint(x, y),
                ),
            final(self).scouts@ == old(self).scouts@,
            final(self).gatherers@ == old(self).gatherers@,
            final(self).resources@ == old(self).resources@,
            final(self).finded_resources@ == old(self).finded_resources@,
            final(self).base == old(self).base,
            final(self).stock == old(self).stock,
            final(self).age == old(self).age,
            final(self).seed == old(self).seed,
    {
        self.grid.decay_passage_counters();
        proof {
            assert forall|i: int| 0 <= i < self.scouts@.len() implies (#[trigger] self.scouts@[i]).wf(self.grid) by {
                assert(old(self).scouts@[i].wf(old(self).grid));
            }
            assert forall|i: int| 0 <= i < self.gatherers@.len() implies (#[trigger] self.gatherers@[i]).wf(self.grid) by {
                assert(old(self).gatherers@[i].wf(old(self).grid));
            }
        }
    }
    /// The observation pass: every scout marks its 3x3 neighbourhood as just
    /// observed and discovers the deposits that lie there.
    pub fn update_explore_matrix(&mut self)
        requires
            old(self).wf(),
        ensures
            final(self).wf(),
            final(self).grid.rows == old(self).grid.rows,
            final(self).grid.cols == old(self).grid.cols,
            forall|x: int, y: int|
                #![trigger final(self).grid.cell(x, y)]
                final(self).grid.in_bounds(x, y) ==> final(self).grid.cell(x, y) == if observed(
                    old(self).scouts@,
                    x,
                    y,
                ) {
                    crate::grid::refreshed(old(self).grid.cell(x, y))
                } else {
                    old(self).grid.cell(x, y)
                },
            forall|id: u32|
                #[trigger] final(self).finded_resources@.contains(id) <==> old(self).finded_resources@.contains(id)
                    || exists|k: int|
                    0 <= k < old(self).resources@.len() && old(self).resources@[k].id == id && observed(
                        old(self).scouts@,
                        old(self).resources@[k].loc.x as int,
                        old(self).resources@[k].loc.y as int,
                    ),
            final(self).finded_resources@ == discover(old(self).finded_resources@, old(self).resources@, old(self).scouts@),
            final(self).scouts@ == old(self).scouts@,
            final(self).gatherers@ == old(self).gatherers@,
            final(self).resources@ == old(self).resources@,
            final(self).base == old(self).base,
            final(self).stock == old(self).stock,
            final(self).age == old(self).age,
            final(self).seed == old(self).seed,
    {
        let ghost g0 = *self;
        let mut i: usize = 0;
        while i < self.scouts.len()
            invariant
                g0.wf(),
                i <= self.scouts@.len(),
                self.grid.wf(),
                self.grid.rows == g0.grid.rows,
                self.grid.cols == g0.grid.cols,
                self.scouts@ == g0.scouts@,
                self.gatherers@ == g0.gatherers@,
                self.resources@ == g0.resources@,
                self.finded_resources@ == g0.finded_resources@,
                self.base == g0.base,
                self.stock == g0.stock,
                self.age == g0.age,
                self.seed == g0.seed,
                self.display_void == g0.display_void,
                self.display_obstacle == g0.display_obstacle,
                self.display_base == g0.display_base,
                self.display_scout == g0.display_scout,
                self.display_gatherer == g0.display_gatherer,
                forall|x: int, y: int|
                    #![trigger self.grid.cell(x, y)]
                    self.grid.in_bounds(x, y) ==> self.grid.cell(x, y) == if observed(
                        g0.scouts@.subrange(0, i as int),
                        x,
                        y,
                    ) {
                        crate::grid::refreshed(g0.grid.cell(x, y))
                    } else {
                        g0.grid.cell(x, y)
                    },
            decreases self.scouts@.len() - i,
        {
            let loc = self.scouts[i].loc;
            proof {
                assert(g0.scouts@[i as int].wf(g0.grid));
            }
            let ghost before = self.grid;
            self.grid.mark_observed(loc.x, loc.y);
            proof {
                assert forall|x: int, y: int|
                    #![trigger self.grid.cell(x, y)]
                    self.grid.in_bounds(x, y) implies self.grid.cell(x, y) == if observed(
                        g0.scouts@.subrange(0, i + 1),
                        x,
                        y,
                    ) {
                        crate::grid::refreshed(g0.grid.cell(x, y))
                    } else {
                        g0.grid.cell(x, y)
                    } by {
                    let s1 = g0.scouts@.subrange(0, i + 1);
                    let s0 = g0.scouts@.subrange(0, i as int);
                    assert(before.cell(x, y) == if observed(s0, x, y) {
                        crate::grid::refreshed(g0.grid.cell(x, y))
                    } else {
                        g0.grid.cell(x, y)
                    });
                    if observed(s0, x, y) {
                        let k = choose|k: int| 0 <= k < s0.len() && within_one(x, y, #[trigger] s0[k].loc.x as int, s0[k].loc.y as int);
                        assert(s1[k] == s0[k]);
                    }
                    if within_one(x, y, loc.x as int, loc.y as int) {
                        assert(s1[i as int] == g0.scouts@[i as int]);
                    }
                    if observed(s1, x, y) {
                        let k = choose|k: int| 0 <= k < s1.len() && within_one(x, y, #[trigger] s1[k].loc.x as int, s1[k].loc.y as int);
                        if k < i {
                            assert(s0[k] == s1[k]);
                        }
                    }
                }
            }
            i = i + 1;
        }
        proof {
            assert(g0.scouts@.subrange(0, self.scouts@.len() as int) =~= g0.scouts@);
            assert(g0.resources@.subrange(0, 0) =~= Seq::<Resource>::empty());
        }
        let mut k: usize = 0;
        while k < self.resources.len()
            invariant
                g0.wf(),
                k <= self.resources@.len(),
                self.grid.wf(),
                self.grid.rows == g0.grid.rows,
                self.grid.cols == g0.grid.cols,
                self.scouts@ == g0.scouts@,
                self.gatherers@ == g0.gatherers@,
                self.resources@ == g0.resources@,
                self.base == g0.base,
                self.stock == g0.stock,
                self.age == g0.age,
                self.seed == g0.seed,
                self.display_void == g0.display_void,
                self.display_obstacle == g0.display_obstacle,
                self.display_base == g0.display_base,
                self.display_scout == g0.display_scout,
                self.display_gatherer == g0.display_gatherer,
                forall|x: int, y: int|
                    #![trigger self.grid.cell(x, y)]
                    self.grid.in_bounds(x, y) ==> self.grid.cell(x, y) == if observed(g0.scouts@, x, y) {
                        crate::grid::refreshed(g0.grid.cell(x, y))
                    } else {
                        g0.grid.cell(x, y)
                    },
                self.finded_resources@.no_duplicates(),
                self.finded_resources@ == discover(g0.finded_resources@, g0.resources@.subrange(0, k as int), g0.scouts@),
                forall|id: u32|
                    #[trigger] self.finded_resources@.contains(id) <==> g0.finded_resources@.contains(id)
                        || exists|j: int|
                        0 <= j < k && g0.resources@[j].id == id && observed(
                            g0.scouts@,
                            g0.resources@[j].loc.x as int,
                            g0.resources@[j].loc.y as int,
                        ),
            decreases self.resources@.len() - k,
        {
            let r = self.resources[k];
            let ghost f0 = self.finded_resources@;
            proof {
                assert(g0.resources@.subrange(0, k + 1).drop_last() =~= g0.resources@.subrange(0, k as int));
            }
            if seen_by(&self.scouts, r.loc) && !holds_id(&self.finded_resources, r.id) {
                self.finded_resources.push(r.id);
                proof {
                    assert forall|a: int, b: int|
                        0 <= a < self.finded_resources@.len() && 0 <= b < self.finded_resources@.len() && a != b
                            implies self.finded_resources@[a] != self.finded_resources@[b] by {
                        if a == f0.len() as int {
                            assert(self.finded_resources@[a] == r.id);
                            assert(f0[b] == self.finded_resources@[b]);
                            assert(f0.contains(f0[b]));
                        } else if b == f0.len() as int {
                            assert(self.finded_resources@[b] == r.id);
                            assert(f0[a] == self.finded_resources@[a]);
                            assert(f0.contains(f0[a]));
                        } else {
                            assert(f0[a] == self.finded_resources@[a]);
                            assert(f0[b] == self.finded_resources@[b]);
                        }
                    }
                }
            }
            proof {
                assert forall|id: u32|
                    #[trigger] self.finded_resources@.contains(id) <==> g0.finded_resources@.contains(id)
                        || exists|j: int|
                        0 <= j < k + 1 && g0.resources@[j].id == id && observed(
                            g0.scouts@,
                            g0.resources@[j].loc.x as int,
                            g0.resources@[j].loc.y as int,
                        ) by {
                    if self.finded_resources@.len() > f0.len() {
                        if self.finded_resources@.contains(id) && !f0.contains(id) {
                            let a = choose|a: int| 0 <= a < self.finded_resources@.len() && self.finded_resources@[a] == id;
                            if a < f0.len() {
                                assert(f0[a] == id);
                            }
                        }
                        if f0.contains(id) {
                            let a = choose|a: int| 0 <= a < f0.len() && f0[a] == id;
                            assert(self.finded_resources@[a] == id);
                        }
                        if id == r.id {
                            assert(self.finded_resources@[f0.len() as int] == id);
                        }
                    }
                    if exists|j: int|
                        0 <= j < k + 1 && g0.resources@[j].id == id && observed(
                            g0.scouts@,
                            g0.resources@[j].loc.x as int,
                            g0.resources@[j].loc.y as int,
                        ) {
                        let j = choose|j: int|
                            0 <= j < k + 1 && g0.resources@[j].id == id && observed(
                                g0.scouts@,
                                g0.resources@[j].loc.x as int,
                                g0.resources@[j].loc.y as int,
                            );
                        if j < k {
                            assert(exists|j2: int|
                                0 <= j2 < k && g0.resources@[j2].id == id && observed(
                                    g0.scouts@,
                                    g0.resources@[j2].loc.x as int,
                                    g0.resources@[j2].loc.y as int,
                                ));
                        }
                    }
                }
            }
            k = k + 1;
        }
        proof {
            assert(g0.resources@.subrange(0, g0.resources@.len() as int) =~= g0.resources@);
            assert forall|i: int| 0 <= i < self.scouts@.len() implies (#[trigger] self.scouts@[i]).wf(self.grid) by {
                assert(g0.scouts@[i].wf(g0.grid));
            }
            assert forall|i: int| 0 <= i < self.gatherers@.len() implies (#[trigger] self.gatherers@[i]).wf(self.grid) by {
                assert(g0.gatherers@[i].wf(g0.grid));
            }
            assert forall|a: int| 0 <= a < self.finded_resources@.len() implies present(
                self.resources@,
                #[trigger] self.finded_resources@[a],
            ) by {
                let id = self.finded_resources@[a];
                assert(self.finded_resources@.contains(id));
                if g0.finded_resources@.contains(id) {
                    let b = choose|b: int| 0 <= b < g0.finded_resources@.len() && g0.finded_resources@[b] == id;
                    assert(present(g0.resources@, g0.finded_resources@[b]));
                }
            }
        }
    }
    /// The pruning pass: exhausted deposits leave the ledger, and their ids the
    /// discovered list. Order is kept.
    pub fn clear_empty_resources(&mut self)
        requires
            old(self).wf(),
        ensures
            final(self).wf(),
            forall|r: Resource|
                #[trigger] final(self).resources@.contains(r) <==> old(self).resources@.contains(r)
                    && r.remaining_quantity > 0,
            forall|k: int|
                0 <= k < final(self).resources@.len() ==> (#[trigger] final(self).resources@[k]).remaining_quantity > 0,
            forall|id: u32|
                #[trigger] final(self).finded_resources@.contains(id) <==> old(self).finded_resources@.contains(id)
                    && exists|j: int|
                    0 <= j < final(self).resources@.len() && final(self).resources@[j].id == id,
            final(self).resources@ == keep_stocked(old(self).resources@),
            final(self).finded_resources@ == keep_present(old(self).finded_resources@, final(self).resources@),
            stored(final(self).resources@, ResourceKind::Crystal) == stored(old(self).resources@, ResourceKind::Crystal),
            stored(final(self).resources@, ResourceKind::Energy) == stored(old(self).resources@, ResourceKind::Energy),
            final(self).grid == old(self).grid,
            final(self).scouts@ == old(self).scouts@,
            final(self).gatherers@ == old(self).gatherers@,
            final(self).base == old(self).base,
            final(self).stock == old(self).stock,
            final(self).age == old(self).age,
            final(self).seed == old(self).seed,
    {
        let ghost g0 = *self;
        let mut kept: Vec<Resource> = Vec::new();
        proof {
            assert(g0.resources@.subrange(0, 0) =~= Seq::<Resource>::empty());
        }
        let mut i: usize = 0;
        while i < self.resources.len()
            invariant
                g0.wf(),
                self.resources@ == g0.resources@,
                i <= g0.resources@.len(),
                forall|a: int| 0 <= a < kept@.len() ==> exists|j: int| 0 <= j < i && g0.resources@[j] == #[trigger] kept@[a],
                forall|j: int| 0 <= j < i && g0.resources@[j].remaining_quantity > 0 ==> kept@.contains(#[trigger] g0.resources@[j]),
                forall|a: int| 0 <= a < kept@.len() ==> (#[trigger] kept@[a]).remaining_quantity > 0,
                ids_unique(kept@),
                kept@ == keep_stocked(g0.resources@.subrange(0, i as int)),
                stored(kept@, ResourceKind::Crystal) == stored(g0.resources@.subrange(0, i as int), ResourceKind::Crystal),
                stored(kept@, ResourceKind::Energy) == stored(g0.resources@.subrange(0, i as int), ResourceKind::Energy),
            decreases g0.resources@.len() - i,
        {
            let r = self.resources[i];
            let ghost k0 = kept@;
            proof {
                assert(g0.resources@.subrange(0, i + 1).drop_last() =~= g0.resources@.subrange(0, i as int));
                lemma_stored_push(kept@, r, ResourceKind::Crystal);
                lemma_stored_push(kept@, r, ResourceKind::Energy);
            }
            if r.remaining_quantity > 0 {
                kept.push(r);
                proof {
                    assert forall|a: int, b: int|
                        0 <= a < kept@.len() && 0 <= b < kept@.len() && kept@[a].id == kept@[b].id implies a == b by {
                        if a < k0.len() && b < k0.len() {
                            assert(k0[a] == kept@[a] && k0[b] == kept@[b]);
                        } else if a < k0.len() {
                            assert(k0[a] == kept@[a]);
                            let j = choose|j: int| 0 <= j < i && g0.resources@[j] == k0[a];
                            assert(g0.resources@[j].id == g0.resources@[i as int].id);
                        } else if b < k0.len() {
                            assert(k0[b] == kept@[b]);
                            let j = choose|j: int| 0 <= j < i && g0.resources@[j] == k0[b];
                            assert(g0.resources@[j].id == g0.resources@[i as int].id);
                        }
                    }
                    assert forall|a: int| 0 <= a < kept@.len() implies exists|j: int|
                        0 <= j < i + 1 && g0.resources@[j] == #[trigger] kept@[a] by {
                        if a < k0.len() {
                            assert(k0[a] == kept@[a]);
                        } else {
                            assert(g0.resources@[i as int] == kept@[a]);
                        }
                    }
                    assert forall|j: int| 0 <= j < i + 1 && g0.resources@[j].remaining_quantity > 0
                        implies kept@.contains(#[trigger] g0.resources@[j]) by {
                        if j < i {
                            let a = choose|a: int| 0 <= a < k0.len() && k0[a] == g0.resources@[j];
                            assert(kept@[a] == k0[a]);
                        } else {
                            assert(kept@[k0.len() as int] == r);
                        }
                    }
                }
            }
            i = i + 1;
        }
        proof {
            assert(g0.resources@.subrange(0, g0.resources@.len() as int) =~= g0.resources@);
            assert(g0.finded_resources@.subrange(0, 0) =~= Seq::<u32>::empty());
        }
        let mut found: Vec<u32> = Vec::new();
        let mut f: usize = 0;
        while f < self.finded_resources.len()
            invariant
                g0.wf(),
                self.finded_resources@ == g0.finded_resources@,
                f <= g0.finded_resources@.len(),
                found@.no_duplicates(),
                found@ == keep_present(g0.finded_resources@.subrange(0, f as int), kept@),
                forall|id: u32|
                    #[trigger] found@.contains(id) <==> (exists|a: int| 0 <= a < f && g0.finded_resources@[a] == id)
                        && exists|j: int| 0 <= j < kept@.len() && kept@[j].id == id,
            decreases g0.finded_resources@.len() - f,
        {
            let id = self.finded_resources[f];
            let ghost fo = found@;
            proof {
                assert(g0.finded_resources@.subrange(0, f + 1).drop_last() =~= g0.finded_resources@.subrange(0, f as int));
            }
            if crate::gatherer::find_resource_index(&kept, id).is_some() {
                found.push(id);
                proof {
                    assert(!fo.contains(id)) by {
                        if fo.contains(id) {
                            let a = choose|a: int| 0 <= a < f && g0.finded_resources@[a] == id;
                            assert(g0.finded_resources@[a] == g0.finded_resources@[f as int]);
                        }
                    }
                    assert forall|a: int, b: int|
                        0 <= a < found@.len() && 0 <= b < found@.len() && a != b implies found@[a] != found@[b] by {
                        if a < fo.len() && b < fo.len() {
                            assert(fo[a] == found@[a] && fo[b] == found@[b]);
                        } else if a < fo.len() {
                            assert(fo[a] == found@[a]);
                            assert(fo.contains(fo[a]));
                        } else if b < fo.len() {
                            assert(fo[b] == found@[b]);
                            assert(fo.contains(fo[b]));
                        }
                    }
                }
            }
            proof {
                assert forall|x: u32|
                    #[trigger] found@.contains(x) <==> (exists|a: int| 0 <= a < f + 1 && g0.finded_resources@[a] == x)
                        && exists|j: int| 0 <= j < kept@.len() && kept@[j].id == x by {
                    if found@.len() > fo.len() {
                        if found@.contains(x) && !fo.contains(x) {
                            let a = choose|a: int| 0 <= a < found@.len() && found@[a] == x;
                            if a < fo.len() {
                                assert(fo[a] == x);
                            }
                        }
                        if fo.contains(x) {
                            let a = choose|a: int| 0 <= a < fo.len() && fo[a] == x;
                            assert(found@[a] == x);
                        }
                        if x == id {
                            assert(found@[fo.len() as int] == x);
                        }
                    }
                    if exists|a: int| 0 <= a < f + 1 && g0.finded_resources@[a] == x {
                        let a = choose|a: int| 0 <= a < f + 1 && g0.finded_resources@[a] == x;
                        if a < f {
                            assert(exists|a2: int| 0 <= a2 < f && g0.finded_resources@[a2] == x);
                        }
                    }
                }
            }
            f = f + 1;
        }
        proof {
            assert(g0.finded_resources@.subrange(0, g0.finded_resources@.len() as int) =~= g0.finded_resources@);
        }
        self.resources = kept;
        self.finded_resources = found;
        proof {
            assert forall|r: Resource|
                #[trigger] self.resources@.contains(r) <==> g0.resources@.contains(r) && r.remaining_quantity > 0 by {
                if self.resources@.contains(r) {
                    let a = choose|a: int| 0 <= a < self.resources@.len() && self.resources@[a] == r;
                    let j = choose|j: int| 0 <= j < g0.resources@.len() && g0.resources@[j] == self.resources@[a];
                }
                if g0.resources@.contains(r) && r.remaining_quantity > 0 {
                    let j = choose|j: int| 0 <= j < g0.resources@.len() && g0.resources@[j] == r;
                }
            }
            assert forall|k: int| 0 <= k < self.resources@.len() implies (#[trigger] self.resources@[k]).wf()
                && self.grid.in_bounds(self.resources@[k].loc.x as int, self.resources@[k].loc.y as int) by {
                let j = choose|j: int| 0 <= j < g0.resources@.len() && g0.resources@[j] == self.resources@[k];
                assert(g0.resources@[j].wf());
            }
            assert forall|id: u32|
                #[trigger] self.finded_resources@.contains(id) <==> g0.finded_resources@.contains(id)
                    && exists|j: int| 0 <= j < self.resources@.len() && self.resources@[j].id == id by {
                if g0.finded_resources@.contains(id) {
                    let a = choose|a: int| 0 <= a < g0.finded_resources@.len() && g0.finded_resources@[a] == id;
                }
            }
            assert forall|a: int| 0 <= a < self.finded_resources@.len() implies present(
                self.resources@,
                #[trigger] self.finded_resources@[a],
            ) by {
                assert(self.finded_resources@.contains(self.finded_resources@[a]));
            }
        }
    }
    /// Applies one gatherer's reply as the collect phase does: a deposit goes to
    /// the base; an extraction request is served from the ledger, clamped to
    /// what the deposit holds, and the amount handed to the gatherer; other
    /// replies change nothing here.
    fn settle(&mut self, i: usize, r: EventType)
        requires
            old(self).wf_core(),
            i < old(self).gatherers@.len(),
            reply_fits(old(self).gatherers@[i as int], r),
            old(self).stock == old(self).crystal_total() + delivered(r).0 + old(self).energy_total()
                + delivered(r).1,
        ensures
            final(self).wf(),
            final(self).crystal_total() == old(self).crystal_total() + delivered(r).0,
            final(self).energy_total() == old(self).energy_total() + delivered(r).1,
            final(self).base.crystal == old(self).base.crystal + delivered(r).0,
            final(self).base.energy == old(self).base.energy + delivered(r).1,
            final(self).base.loc == old(self).base.loc,
            final(self).grid == old(self).grid,
            final(self).scouts@ == old(self).scouts@,
            final(self).finded_resources@ == old(self).finded_resources@,
            final(self).stock == old(self).stock,
            final(self).age == old(self).age,
            final(self).seed == old(self).seed,
            final(self).gatherers@.len() == old(self).gatherers@.len(),
            forall|j: int|
                0 <= j < final(self).gatherers@.len() && j != i ==> #[trigger] final(self).gatherers@[j]
                    == old(self).gatherers@[j],
            final(self).gatherers@[i as int].id == old(self).gatherers@[i as int].id,
            final(self).gatherers@[i as int].loc == old(self).gatherers@[i as int].loc,
            final(self).gatherers@[i as int].target == old(self).gatherers@[i as int].target,
            final(self).gatherers@[i as int].path@ == old(self).gatherers@[i as int].path@,
            collected(old(self).gatherers@[i as int], final(self).gatherers@[i as int], r),
            (final(self).resources@, final(self).base.crystal as int, final(self).base.energy as int, final(self).gatherers@)
                == serve(
                (old(self).resources@, old(self).base.crystal as int, old(self).base.energy as int, old(self).gatherers@),
                i as int,
                r,
            ),
            final(self).resources@.len() == old(self).resources@.len(),
            forall|k: int|
                0 <= k < final(self).resources@.len() ==> (#[trigger] final(self).resources@[k]).id
                    == old(self).resources@[k].id && final(self).resources@[k].loc == old(self).resources@[k].loc
                    && final(self).resources@[k].kind == old(self).resources@[k].kind
                    && final(self).resources@[k].initial_quantity == old(self).resources@[k].initial_quantity
                    && final(self).resources@[k].remaining_quantity <= old(self).resources@[k].remaining_quantity,
    {
        let ghost g0 = *self;
        proof {
            lemma_carried_nonneg(g0.gatherers@);
            lemma_stored_nonneg(g0.resources@, ResourceKind::Crystal);
            lemma_stored_nonneg(g0.resources@, ResourceKind::Energy);
        }
        match r {
            EventType::Deposit(a) => {
                self.base.crystal = self.base.crystal + a.0 as u64;
                self.base.energy = self.base.energy + a.1 as u64;
            },
            EventType::Extract(id, req) => {
                match find_resource_index(&self.resources, id) {
                    Some(k) => {
                        let mut res = self.resources[k];
                        let got = res.gather(req.0, req.1);
                        self.resources.set(k, res);
                        proof {
                            let g = g0.gatherers@[i as int];
                            assert(max_extractable(req.0 as int, req.1 as int) == 10);
                            assert(g.wf(g0.grid));
                            lemma_stored_update(g0.resources@, k as int, res, ResourceKind::Crystal);
                            lemma_stored_update(g0.resources@, k as int, res, ResourceKind::Energy);
                        }
                        let ghost before = self.gatherers@;
                        self.gatherers[i].collect(got);
                        proof {
                            assert(self.gatherers@ =~= before.update(i as int, self.gatherers@[i as int]));
                            let d = g0.resources@[k as int];
                            let taken = extracted_from(d.remaining_quantity as int, req.0 as int, req.1 as int);
                            assert(present(g0.resources@, id));
                            assert(res == with_remaining(d, d.remaining_quantity - taken));
                            assert(self.resources@ =~= g0.resources@.update(k as int, res));
                            let gi = g0.gatherers@[i as int];
                            assert(self.gatherers@[i as int] == with_inventory(gi, self.gatherers@[i as int].inventory));
                            lemma_carried_update(before, i as int, self.gatherers@[i as int]);
                            assert forall|j: int| 0 <= j < self.resources@.len() implies (#[trigger] self.resources@[j]).wf()
                                && self.grid.in_bounds(self.resources@[j].loc.x as int, self.resources@[j].loc.y as int) by {
                                assert(g0.resources@[j].wf());
                            }
                            assert forall|a: int, b: int|
                                0 <= a < self.resources@.len() && 0 <= b < self.resources@.len()
                                    && self.resources@[a].id == self.resources@[b].id implies a == b by {
                                assert(g0.resources@[a].id == self.resources@[a].id);
                                assert(g0.resources@[b].id == self.resources@[b].id);
                            }
                            assert forall|a: int| 0 <= a < self.finded_resources@.len() implies present(
                                self.resources@,
                                #[trigger] self.finded_resources@[a],
                            ) by {
                                assert(present(g0.resources@, g0.finded_resources@[a]));
                                let j = choose|j: int| 0 <= j < g0.resources@.len() && g0.resources@[j].id == g0.finded_resources@[a];
                                assert(self.resources@[j].id == g0.resources@[j].id);
                            }
                            assert forall|j: int| 0 <= j < self.gatherers@.len() implies (#[trigger] self.gatherers@[j]).wf(self.grid) by {
                                assert(g0.gatherers@[j].wf(g0.grid));
                            }
                            assert forall|a: int, b: int|
                                #![trigger self.gatherers@[a], self.gatherers@[b]]
                                0 <= a < b < self.gatherers@.len() implies self.gatherers@[a].id <= self.gatherers@[b].id by {
                                assert(g0.gatherers@[a].id <= g0.gatherers@[b].id);
                            }
                        }
                    },
                    None => {},
                }
            },
            _ => {},
        }
        proof {
            if !(r is Extract) {
                assert(self.gatherers@ == g0.gatherers@);
            }
        }
    }
    /// One tick. Dispatch: a snapshot of the deposits and discovered ids is
    /// taken. Collect: every scout makes one exploration move, then every
    /// gatherer, in id order, decides against the snapshot and its reply is
    /// applied at once. Maintenance: exhausted deposits are pruned, freshness
    /// decays, and the scouts observe their neighbourhoods.
    #[verifier::rlimit(60)]
    pub fn tick(&mut self)
        requires
            old(self).wf(),
        ensures
            final(self).wf(),
            final(self).age == old(self).age.wrapping_add(1),
            final(self).seed == old(self).seed,
            final(self).crystal_total() == old(self).crystal_total(),
            final(self).energy_total() == old(self).energy_total(),
            final(self).base.crystal >= old(self).base.crystal,
            final(self).base.energy >= old(self).base.energy,
            final(self).base.loc == old(self).base.loc,
            final(self).grid.rows == old(self).grid.rows,
            final(self).grid.cols == old(self).grid.cols,
            forall|x: int, y: int|
                #![trigger final(self).grid.cell(x, y)]
                final(self).grid.in_bounds(x, y) ==> final(self).grid.cell(x, y) == if observed(
                    final(self).scouts@,
                    x,
                    y,
                ) {
                    crate::grid::refreshed(crate::grid::decayed(old(self).grid.cell(x, y), old(self).grid.in_footprint(x, y)))
                } else {
                    crate::grid::decayed(old(self).grid.cell(x, y), old(self).grid.in_footprint(x, y))
                },
            final(self).scouts@.len() == old(self).scouts@.len(),
            forall|i: int|
                0 <= i < final(self).scouts@.len() ==> scout_moved(
                    old(self).grid,
                    old(self).seed,
                    old(self).scouts@[i],
                    #[trigger] final(self).scouts@[i],
                ),
            final(self).gatherers@.len() == old(self).gatherers@.len(),
            ticked(*old(self), *final(self)),
            forall|k: int|
                0 <= k < final(self).resources@.len() ==> (#[trigger] final(self).resources@[k]).remaining_quantity > 0,
            forall|k: int|
                0 <= k < final(self).resources@.len() && observed(
                    final(self).scouts@,
                    final(self).resources@[k].loc.x as int,
                    final(self).resources@[k].loc.y as int,
                ) ==> final(self).finded_resources@.contains(#[trigger] final(self).resources@[k].id),
    {
        let ghost g0 = *self;
        self.age = self.age.wrapping_add(1);
        let snap_res = self.resources.clone();
        let snap_disc = self.finded_resources.clone();
        proof {
            assert(snap_res@ =~= g0.resources@);
            assert(snap_disc@ =~= g0.finded_resources@);
        }
        let mut i: usize = 0;
        while i < self.scouts.len()
            invariant
                self.wf(),
                self.grid == g0.grid,
                self.gatherers@ == g0.gatherers@,
                self.resources@ == g0.resources@,
                self.finded_resources@ == g0.finded_resources@,
                self.base == g0.base,
                self.seed == g0.seed,
                self.age == g0.age.wrapping_add(1),
                self.scouts@.len() == g0.scouts@.len(),
                i <= self.scouts@.len(),
                forall|k: int|
                    0 <= k < i ==> scout_moved(g0.grid, g0.seed, g0.scouts@[k], #[trigger] self.scouts@[k]),
                forall|k: int| i <= k < self.scouts@.len() ==> #[trigger] self.scouts@[k] == g0.scouts@[k],
            decreases self.scouts@.len() - i,
        {
            let ghost before = self.scouts@;
            proof {
                assert(before[i as int].wf(self.grid));
            }
            self.scouts[i].explore(&self.grid, self.seed);
            proof {
                assert(self.scouts@ =~= before.update(i as int, self.scouts@[i as int]));
                assert forall|k: int| 0 <= k < self.scouts@.len() implies (#[trigger] self.scouts@[k]).wf(self.grid) by {
                    if k != i {
                        assert(before[k].wf(self.grid));
                    }
                }
            }
            i = i + 1;
        }
        let ghost g1 = *self;
        let ghost mut mids_acc: Seq<Gatherer> = Seq::empty();
        let ghost mut replies: Seq<EventType> = Seq::empty();
        proof {
            assert(mids_acc + g0.gatherers@.subrange(0, g0.gatherers@.len() as int) =~= g0.gatherers@);
        }
        let mut j: usize = 0;
        while j < self.gatherers.len()
            invariant
                self.wf(),
                g0.wf(),
                snap_res@ == g0.resources@,
                snap_disc@ == g0.finded_resources@,
                self.grid == g0.grid,
                self.scouts@ == g1.scouts@,
                self.finded_resources@ == g0.finded_resources@,
                self.base.loc == g0.base.loc,
                self.base.crystal >= g0.base.crystal,
                self.base.energy >= g0.base.energy,
                self.seed == g0.seed,
                self.age == g0.age.wrapping_add(1),
                self.crystal_total() == g0.crystal_total(),
                self.energy_total() == g0.energy_total(),
                self.gatherers@.len() == g0.gatherers@.len(),
                j <= self.gatherers@.len(),
                mids_acc.len() == j,
                replies.len() == j,
                forall|k: int|
                    0 <= k < j ==> decided(
                        g0.grid,
                        g0.finded_resources@,
                        g0.resources@,
                        g0.base.loc,
                        g0.seed,
                        g0.gatherers@[k],
                        #[trigger] mids_acc[k],
                        replies[k],
                    ),
                (self.resources@, self.base.crystal as int, self.base.energy as int, self.gatherers@) == serve_all(
                    (g0.resources@, g0.base.crystal as int, g0.base.energy as int, mids_acc + g0.gatherers@.subrange(j as int, g0.gatherers@.len() as int)),
                    replies,
                    j as nat,
                ),
                self.resources@.len() == g0.resources@.len(),
                forall|k: int|
                    0 <= k < self.resources@.len() ==> same_deposit_drawn_down(g0.resources@[k], #[trigger] self.resources@[k]),
                self.stock == g0.stock,
                forall|k: int| j <= k < self.gatherers@.len() ==> #[trigger] self.gatherers@[k] == g0.gatherers@[k],
            decreases self.gatherers@.len() - j,
        {
            let ghost before = *self;
            let ghost gb = self.gatherers@[j as int];
            proof {
                assert(gb.wf(self.grid));
                assert(self.base.loc.x == self.grid.rows / 2);
            }
            let base_loc = self.base.loc;
            let r = self.gatherers[j].decide(&snap_disc, &snap_res, self.seed, &self.grid, base_loc);
            proof {
                let ga = self.gatherers@[j as int];
                assert(decided(g0.grid, g0.finded_resources@, g0.resources@, base_loc, g0.seed, gb, ga, r));
                assert(self.gatherers@ =~= before.gatherers@.update(j as int, ga));
                lemma_carried_update(before.gatherers@, j as int, ga);
                assert forall|k: int| 0 <= k < self.gatherers@.len() implies (#[trigger] self.gatherers@[k]).wf(self.grid) by {
                    if k != j {
                        assert(before.gatherers@[k].wf(self.grid));
                    }
                }
                assert forall|a: int, b: int|
                    #![trigger self.gatherers@[a], self.gatherers@[b]]
                    0 <= a < b < self.gatherers@.len() implies self.gatherers@[a].id <= self.gatherers@[b].id by {
                    assert(before.gatherers@[a].id <= before.gatherers@[b].id);
                }
                if r is Extract {
                    assert(!gb.full());
                }
                if r is Deposit {
                    assert(gb.path@.len() == 0 && gb.full());
                }
                assert(reply_fits(ga, r));
            }
            let ghost mid = self.gatherers@[j as int];
            let ghost before_settle = *self;
            proof {
                let n = g0.gatherers@.len() as int;
                let bs = mids_acc + g0.gatherers@.subrange(j as int, n);
                let st0 = (g0.resources@, g0.base.crystal as int, g0.base.energy as int, bs);
                lemma_serve_frame(st0, replies, j as nat, j as int, mid);
                assert(bs.update(j as int, mid) =~= mids_acc.push(mid) + g0.gatherers@.subrange(j + 1, n));
                lemma_serve_prefix(
                    (g0.resources@, g0.base.crystal as int, g0.base.energy as int, mids_acc.push(mid) + g0.gatherers@.subrange(j + 1, n)),
                    replies,
                    r,
                    j as nat,
                );
            }
            self.settle(j, r);
            proof {
                assert(decided(g0.grid, g0.finded_resources@, g0.resources@, g0.base.loc, g0.seed, g0.gatherers@[j as int], mid, r)) by {
                    assert(gb == g0.gatherers@[j as int]);
                }
                let m2 = mids_acc.push(mid);
                let r2 = replies.push(r);
                assert forall|k: int|
                    0 <= k < j + 1 implies decided(
                        g0.grid,
                        g0.finded_resources@,
                        g0.resources@,
                        g0.base.loc,
                        g0.seed,
                        g0.gatherers@[k],
                        #[trigger] m2[k],
                        r2[k],
                    ) by {
                    if k < j {
                        assert(m2[k] == mids_acc[k] && r2[k] == replies[k]);
                    }
                }
                assert forall|k: int| j + 1 <= k < self.gatherers@.len() implies #[trigger] self.gatherers@[k] == g0.gatherers@[k] by {
                    assert(self.gatherers@[k] == before.gatherers@[k]);
                }
                assert forall|k: int|
                    0 <= k < self.resources@.len() implies same_deposit_drawn_down(g0.resources@[k], #[trigger] self.resources@[k]) by {
                    assert(same_deposit_drawn_down(g0.resources@[k], before_settle.resources@[k]));
                }
                mids_acc = m2;
                replies = r2;
            }
            j = j + 1;
        }
        let ghost g1_end = *self;
        self.clear_empty_resources();
        let ghost g2 = *self;
        self.decay_passage_counters();
        let ghost g3 = *self;
        self.update_explore_matrix();
        proof {
            assert forall|k: int|
                0 <= k < self.resources@.len() && observed(
                    self.scouts@,
                    self.resources@[k].loc.x as int,
                    self.resources@[k].loc.y as int,
                ) implies self.finded_resources@.contains(#[trigger] self.resources@[k].id) by {
                assert(g3.resources@[k].id == self.resources@[k].id);
            }
            assert forall|k: int|
                0 <= k < self.resources@.len() implies (#[trigger] self.resources@[k]).remaining_quantity > 0 by {
                assert(g2.resources@[k].remaining_quantity > 0);
            }
            assert forall|k: int|
                0 <= k < self.resources@.len() implies exists|jj: int|
                    0 <= jj < g0.resources@.len() && same_deposit_drawn_down(g0.resources@[jj], #[trigger] self.resources@[k]) by {
                assert(g2.resources@.contains(self.resources@[k]));
                let jj = choose|jj: int| 0 <= jj < g1_end.resources@.len() && g1_end.resources@[jj] == self.resources@[k];
                assert(same_deposit_drawn_down(g0.resources@[jj], g1_end.resources@[jj]));
            }
            assert(mids_acc + g0.gatherers@.subrange(g0.gatherers@.len() as int, g0.gatherers@.len() as int) =~= mids_acc);
            assert(served(g0, *self, mids_acc, replies));
            assert(ticked(g0, *self));
        }
    }

    /// A message to the coordinator: `Tick` runs one tick; others are ignored.
    pub fn handle_event(&mut self, event: EventType)
        requires
            old(self).wf(),
        ensures
            final(self).wf(),
            (event matches EventType::Tick ==> ticked(*old(self), *final(self))),
            !(event matches EventType::Tick) ==> *final(self) == *old(self),
    {
        match event {
            EventType::Tick => self.tick(),
            _ => {},
        }
    }
    /// What the display shows at `(x, y)`: a gatherer, else a scout, else a
    /// deposit (drawn only once its cell has been observed), else the terrain,
    /// with cells never observed drawn as void.
    pub open spec fn glyph_at(&self, x: int, y: int) -> char {
        let p = crate::pathfinder::at(x, y);
        let c = self.grid.cell(x, y);
        if gatherer_at(self.gatherers@, p) {
            self.display_gatherer
        } else if scout_at(self.scouts@, p) {
            self.display_scout
        } else if deposit_at(self.resources@, p) {
            if c.explore != crate::grid::UNSEEN {
                kind_glyph(self.resources@[choose|k: int| first_at(self.resources@, p, k)].kind)
            } else {
                self.display_void
            }
        } else if c.explore == crate::grid::UNSEEN {
            self.display_void
        } else {
            match c.terrain {
                Terrain::Open => self.display_void,
                Terrain::Obstacle => self.display_obstacle,
                Terrain::Base => self.display_base,
            }
        }
    }

    /// The display: one glyph per cell, as `glyph_at` gives it.
    pub fn generate_display(&self) -> (m: Vec<Vec<char>>)
        requires
            self.wf(),
        ensures
            m@.len() == self.grid.rows,
            forall|x: int| 0 <= x < self.grid.rows ==> (#[trigger] m@[x])@.len() == self.grid.cols,
            forall|x: int, y: int|
                0 <= x < self.grid.rows && 0 <= y < self.grid.cols ==> (#[trigger] m@[x]@[y]) == self.glyph_at(x, y),
    {
        let mut m: Vec<Vec<char>> = Vec::new();
        let mut x: u32 = 0;
        while x < self.grid.rows
            invariant
                self.wf(),
                x <= self.grid.rows,
                m@.len() == x,
                forall|a: int| 0 <= a < x ==> (#[trigger] m@[a])@.len() == self.grid.cols,
                forall|a: int, b: int|
                    0 <= a < x && 0 <= b < self.grid.cols ==> (#[trigger] m@[a]@[b]) == self.glyph_at(a, b),
            decreases self.grid.rows - x,
        {
            let mut row: Vec<char> = Vec::new();
            let mut y: u32 = 0;
            while y < self.grid.cols
                invariant
                    self.wf(),
                    x < self.grid.rows,
                    y <= self.grid.cols,
                    row@.len() == y,
                    forall|b: int| 0 <= b < y ==> (#[trigger] row@[b]) == self.glyph_at(x as int, b),
                decreases self.grid.cols - y,
            {
                row.push(self.glyph_of(x, y));
                y = y + 1;
            }
            m.push(row);
            x = x + 1;
        }
        m
    }

    fn glyph_of(&self, x: u32, y: u32) -> (c: char)
        requires
            self.wf(),
            self.grid.in_bounds(x as int, y as int),
        ensures
            c == self.glyph_at(x as int, y as int),
    {
        let p = Localization { x, y };
        let cell = self.grid.cells[x as usize][y as usize];
        proof {
            assert(p == crate::pathfinder::at(x as int, y as int));
        }
        if gatherer_here(&self.gatherers, p) {
            self.display_gatherer
        } else if scout_here(&self.scouts, p) {
            self.display_scout
        } else {
            match deposit_index_at(&self.resources, p) {
                Some(k) => {
                    if cell.explore != crate::grid::UNSEEN {
                        proof {
                            let k2 = choose|k2: int| first_at(self.resources@, p, k2);
                            if k2 < k {
                                assert(self.resources@[k2].loc != p);
                            } else if k < k2 {
                                assert(self.resources@[k as int].loc != p);
                            }
                        }
                        self.resources[k].kind.glyph()
                    } else {
                        self.display_void
                    }
                },
                None => {
                    if cell.explore == crate::grid::UNSEEN {
                        self.display_void
                    } else {
                        match cell.terrain {
                            Terrain::Open => self.display_void,
                            Terrain::Obstacle => self.display_obstacle,
                            Terrain::Base => self.display_base,
                        }
                    }
                },
            }
        }
    }

    /// The read-only view for display: the glyph matrix and the base's
    /// counters. It changes nothing, so two calls with no tick between them
    /// give the same result.
    pub fn render(&self) -> (r: (Vec<Vec<char>>, u64, u64))
        requires
            self.wf(),
        ensures
            r.0@.len() == self.grid.rows,
            forall|x: int| 0 <= x < self.grid.rows ==> (#[trigger] r.0@[x])@.len() == self.grid.cols,
            forall|x: int, y: int|
                0 <= x < self.grid.rows && 0 <= y < self.grid.cols ==> (#[trigger] r.0@[x]@[y]) == self.glyph_at(x, y),
            r.1 == self.base.crystal,
            r.2 == self.base.energy,
    {
        (self.generate_display(), self.base.crystal, self.base.energy)
    }
    /// A cell where a new deposit may go: on the grid, neither base nor
    /// obstacle, and holding no deposit.
    pub open spec fn free_cell(&self, p: Localization) -> bool {
        &&& self.grid.in_bounds(p.x as int, p.y as int)
        &&& self.grid.cell(p.x as int, p.y as int).terrain == Terrain::Open
        &&& !deposit_at(self.resources@, p)
    }

    fn is_free(&self, x: u32, y: u32) -> (r: bool)
        requires
            self.wf(),
            self.grid.in_bounds(x as int, y as int),
        ensures
            r == self.free_cell(Localization { x, y }),
    {
        self.grid.cells[x as usize][y as usize].terrain == Terrain::Open
            && deposit_index_at(&self.resources, Localization { x, y }).is_none()
    }

    /// Where the search for a free cell starts: the game's seed mixed with its age.
    pub open spec fn placement_seed(&self) -> u64 {
        seeded_u64(self.seed.wrapping_add(self.age.wrapping_mul(self.age).wrapping_mul(13))).wrapping_add(11)
    }

    /// The free cell that comes first in row-major order.
    pub open spec fn first_free(&self) -> Option<Localization> {
        if exists|p: Localization| self.free_cell(p) {
            Some(choose|p: Localization| #[trigger] self.free_cell(p) && forall|q: Localization| self.free_cell(q) ==> row_major_le(p, q))
        } else {
            None
        }
    }

    /// Up to `tries` random cells from generators seeded in a chain starting
    /// at `seed`; the first that is free, else the first free cell in
    /// row-major order.
    pub open spec fn placed(&self, seed: u64, tries: nat) -> Option<Localization>
        decreases tries,
    {
        if tries == 0 {
            self.first_free()
        } else {
            let d = seeded_cell(seed, self.grid.rows, self.grid.cols);
            let p = Localization { x: d.0, y: d.1 };
            if self.free_cell(p) {
                Some(p)
            } else {
                self.placed(d.2.wrapping_add(11), (tries - 1) as nat)
            }
        }
    }

    /// Where a new deposit goes.
    #[verifier::opaque]
    pub open spec fn placement(&self) -> Option<Localization> {
        self.placed(self.placement_seed(), MAX_PLACEMENT_DRAWS as nat)
    }

    /// A free cell for a new deposit: random draws from generators seeded in a
    /// chain from the game's seed and age, then, should all of them miss, the
    /// first free cell in row-major order. `None` exactly when no cell is free.
    pub fn find_free_localization(&self) -> (r: Option<Localization>)
        requires
            self.wf(),
        ensures
            r == self.placement(),
            (r matches Some(p) ==> self.free_cell(p)),
            r is None <==> forall|p: Localization| !self.free_cell(p),
    {
        reveal(Game::placement);
        let rows = self.grid.rows;
        let cols = self.grid.cols;
        let mut next = first_u64(self.seed.wrapping_add(self.age.wrapping_mul(self.age).wrapping_mul(13))).wrapping_add(11);
        let mut tries: u32 = 0;
        while tries < MAX_PLACEMENT_DRAWS
            invariant
                self.wf(),
                rows == self.grid.rows,
                cols == self.grid.cols,
                tries <= MAX_PLACEMENT_DRAWS,
                self.placement() == self.placed(next, (MAX_PLACEMENT_DRAWS - tries) as nat),
            decreases MAX_PLACEMENT_DRAWS - tries,
        {
            let d = draw_cell(next, rows, cols);
            let x = d.0;
            let y = d.1;
            if self.is_free(x, y) {
                return Some(Localization { x, y });
            }
            next = d.2.wrapping_add(11);
            tries = tries + 1;
        }
        let mut x: u32 = 0;
        while x < rows
            invariant
                self.wf(),
                rows == self.grid.rows,
                cols == self.grid.cols,
                x <= rows,
                self.placement() == self.first_free(),
                forall|p: Localization| p.x < x ==> !self.free_cell(p),
            decreases rows - x,
        {
            let mut y: u32 = 0;
            while y < cols
                invariant
                    self.wf(),
                    rows == self.grid.rows,
                    cols == self.grid.cols,
                    x < rows,
                    y <= cols,
                    self.placement() == self.first_free(),
                    forall|p: Localization| p.x < x ==> !self.free_cell(p),
                    forall|p: Localization| p.x == x && p.y < y ==> !self.free_cell(p),
                decreases cols - y,
            {
                if self.is_free(x, y) {
                    proof {
                        let p = Localization { x, y };
                        assert forall|q: Localization| self.free_cell(q) implies row_major_le(p, q) by {}
                        let c = choose|c: Localization| #[trigger] self.free_cell(c) && forall|q: Localization| self.free_cell(q) ==> row_major_le(c, q);
                        assert(row_major_le(c, p));
                        assert(row_major_le(p, c));
                        assert(c == p);
                    }
                    return Some(Localization { x, y });
                }
                proof {
                    assert forall|p: Localization| p.x == x && p.y < y + 1 implies !self.free_cell(p) by {
                        if p.y == y {
                            assert(p == Localization { x, y });
                        }
                    }
                }
                y = y + 1;
            }
            x = x + 1;
        }
        proof {
            assert forall|p: Localization| !self.free_cell(p) by {
                if p.x < x {
                } else {
                    assert(!self.grid.in_bounds(p.x as int, p.y as int));
                }
            }
        }
        None
    }

    /// Adds one full deposit of the labelled kind at a free cell. Nothing
    /// changes when the label names no kind, when no cell is free, when the
    /// generator is exhausted or gives an id already in the ledger, or when the
    /// quantity would overflow the account of material.
    pub fn add_resource(&mut self, resource_kind_str: &str, initial_quantity: u16, id_generator: &mut IDGenerator)
        requires
            old(self).wf(),
        ensures
            final(self).wf(),
            final(self).resources@.len() == old(self).resources@.len()
                || final(self).resources@.len() == old(self).resources@.len() + 1,
            final(self).resources@.len() == old(self).resources@.len() ==> final(self).resources@ == old(self).resources@
                && final(self).stock == old(self).stock,
            final(self).resources@.len() == old(self).resources@.len() + 1 ==> {
                let r = final(self).resources@.last();
                &&& final(self).resources@.drop_last() == old(self).resources@
                &&& Some(r.kind) == crate::resources::kind_of_label(resource_kind_str@)
                &&& old(self).free_cell(r.loc)
                &&& old(self).placement() == Some(r.loc)
                &&& r.initial_quantity == initial_quantity
                &&& r.remaining_quantity == initial_quantity
                &&& r.id == final(id_generator).last()
                &&& final(self).stock == old(self).stock + initial_quantity
            },
            crate::resources::kind_of_label(resource_kind_str@) is Some && (exists|p: Localization| old(self).free_cell(p))
                && old(id_generator).can_issue() && !present(old(self).resources@, (old(id_generator).last() + 1) as u32)
                && old(self).stock + initial_quantity <= u64::MAX
                ==> final(self).resources@.len() == old(self).resources@.len() + 1,
            final(self).grid == old(self).grid,
            final(self).scouts@ == old(self).scouts@,
            final(self).gatherers@ == old(self).gatherers@,
            final(self).finded_resources@ == old(self).finded_resources@,
            final(self).base == old(self).base,
            final(self).age == old(self).age,
            final(self).seed == old(self).seed,
            final(self).crystal_total() + final(self).energy_total() == final(self).stock,
            final(id_generator).last() <= old(id_generator).last() + 1,
            crate::resources::kind_of_label(resource_kind_str@) is None ==> *final(id_generator) == *old(id_generator),
            !(exists|p: Localization| old(self).free_cell(p)) ==> *final(id_generator) == *old(id_generator),
            final(self).resources@.len() == old(self).resources@.len() + 1 ==> final(id_generator).last()
                == old(id_generator).last() + 1,
    {
        let kind = match ResourceKind::from_str(resource_kind_str) {
            Some(k) => k,
            None => {
                return;
            },
        };
        let loc = match self.find_free_localization() {
            Some(p) => p,
            None => {
                return;
            },
        };
        if !id_generator.has_next() {
            return;
        }
        if initial_quantity as u64 > u64::MAX - self.stock {
            return;
        }
        let ghost gen0 = *id_generator;
        let res = Resource::new_resource(loc, kind, initial_quantity, id_generator);
        if find_resource_index(&self.resources, res.id).is_some() {
            return;
        }
        let ghost g0 = *self;
        self.resources.push(res);
        self.stock = self.stock + initial_quantity as u64;
        proof {
            lemma_stored_push(g0.resources@, res, ResourceKind::Crystal);
            lemma_stored_push(g0.resources@, res, ResourceKind::Energy);
            assert(self.resources@.drop_last() =~= g0.resources@);
            assert forall|k: int| 0 <= k < self.resources@.len() implies (#[trigger] self.resources@[k]).wf()
                && self.grid.in_bounds(self.resources@[k].loc.x as int, self.resources@[k].loc.y as int) by {
                if k < g0.resources@.len() {
                    assert(self.resources@[k] == g0.resources@[k]);
                }
            }
            assert forall|a: int, b: int|
                0 <= a < self.resources@.len() && 0 <= b < self.resources@.len()
                    && self.resources@[a].id == self.resources@[b].id implies a == b by {
                if a < g0.resources@.len() {
                    assert(self.resources@[a] == g0.resources@[a]);
                }
                if b < g0.resources@.len() {
                    assert(self.resources@[b] == g0.resources@[b]);
                }
            }
            assert forall|a: int| 0 <= a < self.finded_resources@.len() implies present(
                self.resources@,
                #[trigger] self.finded_resources@[a],
            ) by {
                assert(present(g0.resources@, g0.finded_resources@[a]));
                let j = choose|j: int| 0 <= j < g0.resources@.len() && g0.resources@[j].id == g0.finded_resources@[a];
                assert(self.resources@[j] == g0.resources@[j]);
            }
        }
    }
    /// Spawns a scout at `(x, y)` with the next id. Nothing changes when the
    /// cell is off the grid or the generator is exhausted.
    pub fn add_scout(&mut self, x: u32, y: u32, id_generator: &mut IDGenerator)
        requires
            old(self).wf(),
        ensures
            final(self).wf(),
            scout_added(*old(self), *final(self), x, y, *old(id_generator), *final(id_generator)),
            final(self).grid == old(self).grid,
            final(self).gatherers@ == old(self).gatherers@,
            final(self).resources@ == old(self).resources@,
            final(self).finded_resources@ == old(self).finded_resources@,
            final(self).base == old(self).base,
            final(self).stock == old(self).stock,
            final(self).age == old(self).age,
            final(self).seed == old(self).seed,
    {
        if x >= self.grid.rows || y >= self.grid.cols || !id_generator.has_next() {
            return;
        }
        let scout = Scout::new(Localization { x, y }, id_generator);
        let ghost s0 = self.scouts@;
        self.scouts.push(scout);
        proof {
            assert(self.scouts@.drop_last() =~= s0);
            assert forall|i: int| 0 <= i < self.scouts@.len() implies (#[trigger] self.scouts@[i]).wf(self.grid) by {
                if i < s0.len() {
                    assert(self.scouts@[i] == s0[i]);
                }
            }
        }
    }

    /// Spawns a gatherer at `(x, y)` with the next id, placed after every
    /// gatherer whose id is not larger, so the collect phase keeps id order.
    /// Nothing changes when the cell is off the grid or the generator is
    /// exhausted.
    pub fn add_gatherer(&mut self, x: u32, y: u32, id_generator: &mut IDGenerator)
        requires
            old(self).wf(),
        ensures
            final(self).wf(),
            gatherer_added(*old(self), *final(self), x, y, *old(id_generator), *final(id_generator)),
            final(self).grid == old(self).grid,
            final(self).scouts@ == old(self).scouts@,
            final(self).resources@ == old(self).resources@,
            final(self).finded_resources@ == old(self).finded_resources@,
            final(self).base == old(self).base,
            final(self).stock == old(self).stock,
            final(self).age == old(self).age,
            final(self).seed == old(self).seed,
    {
        if x >= self.grid.rows || y >= self.grid.cols || !id_generator.has_next() {
            return;
        }
        let g = Gatherer::new(Localization { x, y }, id_generator);
        let mut k: usize = 0;
        while k < self.gatherers.len() && self.gatherers[k].id <= g.id
            invariant
                k <= self.gatherers@.len(),
                forall|a: int| 0 <= a < k ==> (#[trigger] self.gatherers@[a]).id <= g.id,
            decreases self.gatherers@.len() - k,
        {
            k = k + 1;
        }
        let ghost s0 = self.gatherers@;
        proof {
            lemma_carried_insert(s0, k as int, g);
        }
        self.gatherers.insert(k, g);
        proof {
            assert(self.gatherers@ =~= s0.insert(k as int, g));
            assert(self.gatherers@[k as int] == g);
            assert forall|jj: int| k <= jj < s0.len() implies s0[jj].id > g.id by {
                if jj > k {
                    assert(s0[k as int].id <= s0[jj].id);
                }
            }
            assert forall|i: int| 0 <= i < self.gatherers@.len() implies (#[trigger] self.gatherers@[i]).wf(self.grid) by {
                if i < k {
                    assert(self.gatherers@[i] == s0[i]);
                } else if i > k {
                    assert(self.gatherers@[i] == s0[i - 1]);
                }
            }
            assert forall|a: int, b: int|
                #![trigger self.gatherers@[a], self.gatherers@[b]]
                0 <= a < b < self.gatherers@.len() implies self.gatherers@[a].id <= self.gatherers@[b].id by {
                if b < k {
                    assert(s0[a].id <= s0[b].id);
                } else if a > k {
                    assert(s0[a - 1].id <= s0[b - 1].id);
                } else if a < k && b > k {
                    assert(s0[a].id <= s0[b - 1].id);
                } else if a == k && b > k {
                    assert(self.gatherers@[b] == s0[b - 1]);
                    if k < s0.len() {
                        assert(s0[k as int].id > g.id);
                        assert(s0[k as int].id <= s0[b - 1].id || b - 1 == k);
                    }
                }
            }
        }
    }

    /// The first deposit located at `(x, y)`, if any.
    pub fn find_resource_by_loc(&self, x: u32, y: u32) -> (r: Option<Resource>)
        ensures
            (r matches Some(res) ==> exists|k: int| first_at(self.resources@, Localization { x, y }, k) && self.resources@[k] == res),
            r is None <==> !deposit_at(self.resources@, Localization { x, y }),
    {
        match deposit_index_at(&self.resources, Localization { x, y }) {
            Some(k) => Some(self.resources[k]),
            None => None,
        }
    }

    /// Spawns an agent of the labelled mission at `(x, y)`; an unknown label
    /// changes nothing.
    pub fn add_bot(&mut self, mission_str: &str, x: u32, y: u32, id_generator: &mut IDGenerator)
        requires
            old(self).wf(),
        ensures
            final(self).wf(),
            mission_of_label(mission_str@) is None ==> final(self).scouts@ == old(self).scouts@
                && final(self).gatherers@ == old(self).gatherers@ && *final(id_generator) == *old(id_generator),
            mission_of_label(mission_str@) == Some(Mission::Scout) ==> final(self).gatherers@ == old(self).gatherers@
                && scout_added(*old(self), *final(self), x, y, *old(id_generator), *final(id_generator)),
            mission_of_label(mission_str@) == Some(Mission::Gatherer) ==> final(self).scouts@ == old(self).scouts@
                && gatherer_added(*old(self), *final(self), x, y, *old(id_generator), *final(id_generator)),
            final(self).grid == old(self).grid,
            final(self).resources@ == old(self).resources@,
            final(self).base == old(self).base,
    {
        match Mission::from_str(mission_str) {
            Some(Mission::Scout) => self.add_scout(x, y, id_generator),
            Some(Mission::Gatherer) => self.add_gatherer(x, y, id_generator),
            None => {},
        }
    }

    /// Adds `number` deposits of the standard quantity, crystal and energy in
    /// turn, starting with crystal.
    #[verifier::rlimit(60)]
    pub fn generate_resources(&mut self, id_generator: &mut IDGenerator, number: u8)
        requires
            old(self).wf(),
        ensures
            final(self).wf(),
            final(self).resources@.len() <= old(self).resources@.len() + number,
            final(self).grid == old(self).grid,
            final(self).scouts@ == old(self).scouts@,
            final(self).gatherers@ == old(self).gatherers@,
            final(self).base == old(self).base,
            final(self).seed == old(self).seed,
            final(id_generator).last() <= old(id_generator).last() + number,
            room_for_deposits(*old(self), *old(id_generator), number as int) ==> {
                &&& final(self).resources@.len() == old(self).resources@.len() + number
                &&& final(self).resources@.subrange(0, old(self).resources@.len() as int) == old(self).resources@
                &&& forall|i: int|
                    0 <= i < number ==> {
                        let r = #[trigger] final(self).resources@[old(self).resources@.len() + i];
                        &&& r.kind == generated_kind(i)
                        &&& r.initial_quantity == DEPOSIT_QUANTITY
                        &&& r.remaining_quantity == DEPOSIT_QUANTITY
                    }
            },
    {
        let ghost room = room_for_deposits(*self, *id_generator, number as int);
        let ghost g0 = *self;
        let ghost gen0 = *id_generator;
        let ghost n0 = self.resources@.len() as int;
        proof {
            reveal_strlit("crystal");
            reveal_strlit("energy");
            assert(crate::resources::kind_of_label("crystal"@) == Some(ResourceKind::Crystal));
            assert(crate::resources::kind_of_label("energy"@) == Some(ResourceKind::Energy));
            assert(g0.resources@.subrange(0, n0) =~= g0.resources@);
            if room {
                let w = choose|w: Seq<Localization>| #[trigger] free_cells_listed(g0, w, number as int);
                assert(free_cells_listed(*self, w, number - 0));
            }
        }
        let mut i: u8 = 0;
        while i < number
            invariant
                self.wf(),
                i <= number,
                self.resources@.len() <= old(self).resources@.len() + i,
                self.grid == old(self).grid,
                self.scouts@ == old(self).scouts@,
                self.gatherers@ == old(self).gatherers@,
                self.base == old(self).base,
                self.seed == old(self).seed,
                id_generator.last() <= old(id_generator).last() + i,
                g0 == *old(self),
                gen0 == *old(id_generator),
                n0 == g0.resources@.len(),
                room == room_for_deposits(g0, gen0, number as int),
                crate::resources::kind_of_label("crystal"@) == Some(ResourceKind::Crystal),
                crate::resources::kind_of_label("energy"@) == Some(ResourceKind::Energy),
                room ==> self.resources@.len() == n0 + i,
                room ==> self.resources@.subrange(0, n0) == g0.resources@,
                room ==> id_generator.last() == gen0.last() + i,
                room ==> self.stock == g0.stock + DEPOSIT_QUANTITY * i,
                room ==> exists|w: Seq<Localization>| #[trigger] free_cells_listed(*self, w, number - i),
                room ==> forall|j: int| n0 <= j < self.resources@.len() ==> (#[trigger] self.resources@[j]).id <= id_generator.last(),
                room ==> forall|ii: int|
                    0 <= ii < i ==> {
                        let r = #[trigger] self.resources@[n0 + ii];
                        &&& r.kind == generated_kind(ii)
                        &&& r.initial_quantity == DEPOSIT_QUANTITY
                        &&& r.remaining_quantity == DEPOSIT_QUANTITY
                    },
            decreases number - i,
        {
            let ghost before = *self;
            let ghost genb = *id_generator;
            proof {
                if room {
                    let w = choose|w: Seq<Localization>| #[trigger] free_cells_listed(before, w, number - i);
                    assert(before.free_cell(w[0]));
                    let nid = (genb.last() + 1) as u32;
                    assert(nid == ((gen0.last() + (i + 1)) as u32));
                    assert(!present(g0.resources@, nid));
                    if present(before.resources@, nid) {
                        let j = choose|j: int| 0 <= j < before.resources@.len() && before.resources@[j].id == nid;
                        if j < n0 {
                            assert(before.resources@.subrange(0, n0)[j] == before.resources@[j]);
                        }
                    }
                }
            }
            if i % 2 == 0 {
                self.add_resource("crystal", DEPOSIT_QUANTITY, id_generator);
            } else {
                self.add_resource("energy", DEPOSIT_QUANTITY, id_generator);
            }
            proof {
                if room {
                    let w = choose|w: Seq<Localization>| #[trigger] free_cells_listed(before, w, number - i);
                    let r = self.resources@.last();
                    assert(self.resources@.drop_last() == before.resources@);
                    assert forall|q: Localization|
                        deposit_at(self.resources@, q) <==> deposit_at(before.resources@, q) || q == r.loc by {
                        if deposit_at(self.resources@, q) {
                            let k = choose|k: int| 0 <= k < self.resources@.len() && #[trigger] self.resources@[k].loc == q;
                            if k < before.resources@.len() {
                                assert(before.resources@[k] == self.resources@[k]);
                            }
                        }
                        if deposit_at(before.resources@, q) {
                            let k = choose|k: int| 0 <= k < before.resources@.len() && #[trigger] before.resources@[k].loc == q;
                            assert(before.resources@[k] == self.resources@[k]);
                        }
                        if q == r.loc {
                            assert(self.resources@[self.resources@.len() - 1].loc == q);
                        }
                    }
                    lemma_free_after_push(before, *self, r.loc, w, number - i);
                    let w2 = choose|w2: Seq<Localization>| #[trigger] free_cells_listed(*self, w2, number - i - 1);
                    assert(free_cells_listed(*self, w2, number - (i + 1)));
                    assert(self.resources@.subrange(0, n0) =~= before.resources@.subrange(0, n0));
                    assert forall|j: int| n0 <= j < self.resources@.len() implies (#[trigger] self.resources@[j]).id <= id_generator.last() by {
                        if j < before.resources@.len() {
                            assert(before.resources@[j] == self.resources@[j]);
                        }
                    }
                    assert forall|ii: int|
                        0 <= ii < i + 1 implies {
                            let rr = #[trigger] self.resources@[n0 + ii];
                            &&& rr.kind == generated_kind(ii)
                            &&& rr.initial_quantity == DEPOSIT_QUANTITY
                            &&& rr.remaining_quantity == DEPOSIT_QUANTITY
                        } by {
                        if ii < i {
                            assert(before.resources@[n0 + ii] == self.resources@[n0 + ii]);
                        } else {
                            assert(self.resources@[n0 + ii] == r);
                            assert(generated_kind(ii) == if i % 2 == 0 { ResourceKind::Crystal } else { ResourceKind::Energy });
                        }
                    }
                }
            }
            i = i + 1;
        }
    }
}

proof fn lemma_added_at(old: Game, new: Game, x: u32, y: u32, gen0: IDGenerator, gen1: IDGenerator)
    requires
        gatherer_added(old, new, x, y, gen0, gen1),
        old.grid.in_bounds(x as int, y as int),
        gen0.can_issue(),
        forall|j: int| 0 <= j < old.gatherers@.len() ==> (#[trigger] old.gatherers@[j]).loc == (Localization { x, y }),
    ensures
        forall|j: int| 0 <= j < new.gatherers@.len() ==> (#[trigger] new.gatherers@[j]).loc == (Localization { x, y }),
{
    let k = choose|k: int|
        0 <= k <= old.gatherers@.len() && new.gatherers@ == old.gatherers@.insert(k, #[trigger] new.gatherers@[k])
            && (forall|j: int| 0 <= j < k ==> old.gatherers@[j].id <= new.gatherers@[k].id)
            && (forall|j: int| k <= j < old.gatherers@.len() ==> old.gatherers@[j].id > new.gatherers@[k].id)
            && {
            let g = new.gatherers@[k];
            &&& g.id == gen0.last() + 1
            &&& g.loc == (Localization { x, y })
            &&& g.target is None
            &&& g.inventory == (0u16, 0u16)
            &&& g.inventory_size == crate::gatherer::INVENTORY_SIZE
            &&& g.path@.len() == 0
        };
    assert forall|j: int| 0 <= j < new.gatherers@.len() implies (#[trigger] new.gatherers@[j]).loc == (Localization { x, y }) by {
        if j < k {
            assert(new.gatherers@[j] == old.gatherers@[j]);
        } else if j > k {
            assert(new.gatherers@[j] == old.gatherers@[j - 1]);
        }
    }
}

/// Sets a game up: the grid laid out from the obstacle and safe-zone masks,
/// `resources` deposits, then the scouts and the gatherers at the centre, all
/// with ids from one fresh generator.
pub fn create_new_game(
    rows: u32,
    columns: u32,
    seed: u64,
    gatherers: u8,
    scouts: u8,
    resources: u8,
    empty_display: char,
    obstacle_display: char,
    base_display: char,
    scout_display: char,
    gatherer_display: char,
    obstacle: &Vec<Vec<bool>>,
    safe_zone: &Vec<Vec<bool>>,
) -> (g: Game)
    requires
        rows >= 3,
        columns >= 3,
        obstacle@.len() == rows,
        safe_zone@.len() == rows,
        forall|i: int| 0 <= i < rows ==> #[trigger] obstacle@[i]@.len() == columns,
        forall|i: int| 0 <= i < rows ==> #[trigger] safe_zone@[i]@.len() == columns,
    ensures
        g.wf(),
        g.grid.rows == rows,
        g.grid.cols == columns,
        forall|x: int, y: int|
            #![trigger g.grid.cell(x, y)]
            g.grid.in_bounds(x, y) ==> g.grid.cell(x, y) == layout_cell(rows, columns, obstacle@, safe_zone@, x, y),
        g.seed == seed,
        g.scouts@.len() == scouts,
        g.gatherers@.len() == gatherers,
        g.resources@.len() <= resources,
        g.base.crystal == 0,
        g.base.energy == 0,
        forall|k: int|
            0 <= k < g.scouts@.len() ==> (#[trigger] g.scouts@[k]).loc == (Localization { x: rows / 2, y: columns / 2 })
                && g.scouts@[k].prev_loc == (Localization { x: rows / 2, y: columns / 2 }),
        forall|k: int|
            0 <= k < g.gatherers@.len() ==> (#[trigger] g.gatherers@[k]).loc == (Localization { x: rows / 2, y: columns / 2 }),
        (exists|w: Seq<Localization>| #[trigger] open_cells_listed(rows, columns, obstacle@, safe_zone@, w, resources as int))
            ==> g.resources@.len() == resources && forall|i: int|
            0 <= i < resources ==> {
                let r = #[trigger] g.resources@[i];
                &&& r.kind == generated_kind(i)
                &&& r.initial_quantity == DEPOSIT_QUANTITY
                &&& r.remaining_quantity == DEPOSIT_QUANTITY
            },
{
    let mut id_generator = IDGenerator::new();
    let mut game = Game::new(
        rows,
        columns,
        seed,
        empty_display,
        obstacle_display,
        base_display,
        scout_display,
        gatherer_display,
    );
    let ghost g0 = game.grid;
    game.generate_map_obstacles(obstacle, safe_zone);
    let ghost laid = game.grid;
    proof {
        assert forall|x: int, y: int|
            #![trigger laid.cell(x, y)]
            laid.in_bounds(x, y) implies laid.cell(x, y) == layout_cell(rows, columns, obstacle@, safe_zone@, x, y) by {
            assert(g0.cell(x, y) == g0.initial_cell(x, y));
        }
        if exists|w: Seq<Localization>| #[trigger] open_cells_listed(rows, columns, obstacle@, safe_zone@, w, resources as int) {
            let w = choose|w: Seq<Localization>| #[trigger] open_cells_listed(rows, columns, obstacle@, safe_zone@, w, resources as int);
            assert forall|i: int| 0 <= i < w.len() implies game.free_cell(#[trigger] w[i]) by {
                assert(laid.cell(w[i].x as int, w[i].y as int) == layout_cell(rows, columns, obstacle@, safe_zone@, w[i].x as int, w[i].y as int));
            }
            assert(free_cells_listed(game, w, resources as int));
            assert(room_for_deposits(game, id_generator, resources as int));
        }
    }
    let ghost gen_resources = game.resources@;
    let ghost room = room_for_deposits(game, id_generator, resources as int);
    game.generate_resources(&mut id_generator, resources);
    let ghost after_gen = game.resources@;
    proof {
        if room {
            assert forall|i: int| 0 <= i < resources implies {
                let r = #[trigger] after_gen[i];
                &&& r.kind == generated_kind(i)
                &&& r.initial_quantity == DEPOSIT_QUANTITY
                &&& r.remaining_quantity == DEPOSIT_QUANTITY
            } by {
                assert(after_gen[gen_resources.len() + i] == after_gen[i]);
            }
        }
    }
    let mut i: u8 = 0;
    while i < scouts
        invariant
            game.wf(),
            game.grid == laid,
            rows == game.grid.rows,
            columns == game.grid.cols,
            game.seed == seed,
            game.scouts@.len() == i,
            game.gatherers@.len() == 0,
            game.resources@.len() <= resources,
            game.resources@ == after_gen,
            forall|k: int|
                0 <= k < game.scouts@.len() ==> (#[trigger] game.scouts@[k]).loc == (Localization { x: rows / 2, y: columns / 2 })
                    && game.scouts@[k].prev_loc == (Localization { x: rows / 2, y: columns / 2 }),
            game.base.crystal == 0,
            game.base.energy == 0,
            id_generator.last() <= resources + i,
            i <= scouts,
        decreases scouts - i,
    {
        let ghost sb = game.scouts@;
        game.add_scout(rows / 2, columns / 2, &mut id_generator);
        proof {
            assert forall|k: int| 0 <= k < game.scouts@.len() implies (#[trigger] game.scouts@[k]).loc
                == (Localization { x: rows / 2, y: columns / 2 })
                && game.scouts@[k].prev_loc == (Localization { x: rows / 2, y: columns / 2 }) by {
                if k < sb.len() {
                    assert(game.scouts@.drop_last()[k] == game.scouts@[k]);
                }
            }
        }
        i = i + 1;
    }
    let mut j: u8 = 0;
    while j < gatherers
        invariant
            game.wf(),
            game.grid == laid,
            rows == game.grid.rows,
            columns == game.grid.cols,
            game.seed == seed,
            game.scouts@.len() == scouts,
            game.gatherers@.len() == j,
            game.resources@.len() <= resources,
            game.resources@ == after_gen,
            forall|k: int|
                0 <= k < game.scouts@.len() ==> (#[trigger] game.scouts@[k]).loc == (Localization { x: rows / 2, y: columns / 2 })
                    && game.scouts@[k].prev_loc == (Localization { x: rows / 2, y: columns / 2 }),
            forall|k: int|
                0 <= k < game.gatherers@.len() ==> (#[trigger] game.gatherers@[k]).loc == (Localization { x: rows / 2, y: columns / 2 }),
            game.base.crystal == 0,
            game.base.energy == 0,
            id_generator.last() <= resources + scouts + j,
            j <= gatherers,
        decreases gatherers - j,
    {
        let ghost gm = game;
        let ghost gen_before = id_generator;
        game.add_gatherer(rows / 2, columns / 2, &mut id_generator);
        proof {
            lemma_added_at(gm, game, rows / 2, columns / 2, gen_before, id_generator);
        }
        j = j + 1;
    }
    game
}

} // verus!
