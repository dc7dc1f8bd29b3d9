use vstd::prelude::*;

use crate::chance::{choose_after, nats, seeded_pick_after};
use crate::events::EventType;
use crate::grid::{Grid, Localization};
use crate::id_generator::IDGenerator;
use crate::pathfinder::{
    bfs_path, adjacent, find_shortest_path, is_walk, lemma_walk_tail, reachable, walk_end,
};
use crate::resources::{
    extracted_from, Resource, EXTRACTION_QUANTITY, EXTRACTION_RATE_PERCENT,
};
use crate::scout::{agent_seed, seed_for};

verus! {

/// What a gatherer carries at most before heading back to base.
pub const INVENTORY_SIZE: u16 = 10;

/// Largest capacity a gatherer may be given: one extraction past it still
/// fits in a `u16`.
pub const MAX_INVENTORY_SIZE: u16 = 65525;

/// The index of the deposit with identifier `id` in `resources`, if any.
pub open spec fn index_of(resources: Seq<Resource>, id: u32) -> Option<int> {
    if exists|k: int| 0 <= k < resources.len() && resources[k].id == id {
        Some(choose|k: int| 0 <= k < resources.len() && resources[k].id == id)
    } else {
        None
    }
}

/// No two deposits share an identifier.
pub open spec fn ids_unique(resources: Seq<Resource>) -> bool {
    forall|a: int, b: int|
        0 <= a < resources.len() && 0 <= b < resources.len() && resources[a].id == resources[b].id
            ==> a == b
}

/// A deposit worth heading for: discovered, present, and not exhausted.
pub open spec fn pickable(discovered: Seq<u32>, resources: Seq<Resource>, id: u32) -> bool {
    &&& discovered.contains(id)
    &&& exists|k: int|
        0 <= k < resources.len() && resources[k].id == id && resources[k].remaining_quantity > 0
}

/// An agent that ferries material from deposits to the base.
#[derive(Debug)]
pub struct Gatherer {
    pub id: u32,
    pub loc: Localization,
    pub target: Option<u32>,
    pub inventory: (u16, u16),
    pub inventory_size: u16,
    pub path: Vec<Localization>,
}

/// `after` has set out for `dest`: it took the first step of the breadth-first
/// path there and keeps the rest as its path; it stays put with nothing queued when already
/// there or when no walk leads there.
pub open spec fn headed(g: Grid, before: Gatherer, after: Gatherer, dest: Localization, r: EventType) -> bool {
    if dest != before.loc && reachable(g, before.loc, dest) {
        &&& r == EventType::Moved(after.loc)
        &&& after.loc == bfs_path(g, before.loc, dest)->0[0]
        &&& after.path@ == bfs_path(g, before.loc, dest)->0.drop_first()
        &&& adjacent(before.loc, after.loc)
        &&& g.passable(after.loc.x as int, after.loc.y as int)
        &&& is_walk(g, after.loc, after.path@)
        &&& walk_end(after.loc, after.path@) == dest
    } else {
        &&& r == EventType::Nothing
        &&& after.loc == before.loc
        &&& after.path@.len() == 0
    }
}

/// `t` is a fair pick among the pickable deposits other than `skip`: `None`
/// exactly when there is none.
pub open spec fn picked(discovered: Seq<u32>, resources: Seq<Resource>, skip: Option<u32>, t: Option<u32>) -> bool {
    match t {
        Some(id) => pickable(discovered, resources, id) && skip != Some(id),
        None => forall|id: u32| #[trigger] pickable(discovered, resources, id) ==> skip == Some(id),
    }
}

/// The location of the deposit with identifier `id`; meaningful when it is present.
pub open spec fn location_of(resources: Seq<Resource>, id: u32) -> Localization {
    resources[index_of(resources, id)->0].loc
}

/// A deposit id that `find` may pick when skipping `skip`: present with
/// something left, and not `skip`.
pub open spec fn eligible(resources: Seq<Resource>, skip: Option<u32>, id: u32) -> bool {
    &&& skip != Some(id)
    &&& exists|k: int|
        0 <= k < resources.len() && resources[k].id == id && resources[k].remaining_quantity > 0
}

/// The discovered ids that are eligible, in discovered order.
pub open spec fn candidates_of(disc: Seq<u32>, resources: Seq<Resource>, skip: Option<u32>) -> Seq<u32>
    decreases disc.len(),
{
    if disc.len() == 0 {
        disc
    } else if eligible(resources, skip, disc.last()) {
        candidates_of(disc.drop_last(), resources, skip).push(disc.last())
    } else {
        candidates_of(disc.drop_last(), resources, skip)
    }
}

/// The target that a generator seeded with `seed` picks among the candidates.
pub open spec fn target_pick(disc: Seq<u32>, resources: Seq<Resource>, skip: Option<u32>, seed: u64) -> Option<u32> {
    let c = candidates_of(disc, resources, skip);
    if c.len() == 0 {
        None
    } else {
        Some(c[seeded_pick_after(seed, seq![c.len()]) as int])
    }
}

/// One decision of a gatherer against a snapshot of the discovered ids and the
/// deposits, with the base at `base`. A queued path is followed one cell at a
/// time. With an empty path: a full gatherer deposits when at base and heads
/// there otherwise; one without a target picks one and heads for it; one on
/// its target's cell asks to extract, and when that would exhaust the deposit
/// drops it and picks another; one away from its target heads for it.
pub open spec fn decided(
    g: Grid,
    disc: Seq<u32>,
    res: Seq<Resource>,
    base: Localization,
    seed: u64,
    before: Gatherer,
    after: Gatherer,
    r: EventType,
) -> bool {
    &&& after.id == before.id
    &&& after.inventory_size == before.inventory_size
    &&& if before.path@.len() > 0 {
        &&& r == EventType::Moved(after.loc)
        &&& after.loc == before.path@[0]
        &&& after.path@ == before.path@.drop_first()
        &&& after.inventory == before.inventory
        &&& after.target == before.target
    } else if before.full() {
        &&& after.target == before.target
        &&& if before.loc == base {
            &&& r == EventType::Deposit(before.inventory)
            &&& after.inventory == (0u16, 0u16)
            &&& after.loc == before.loc
            &&& after.path@.len() == 0
        } else {
            &&& headed(g, before, after, base, r)
            &&& after.inventory == before.inventory
        }
    } else {
        &&& after.inventory == before.inventory
        &&& match before.target {
            None => {
                &&& picked(disc, res, None, after.target)
                &&& after.target == target_pick(disc, res, None, agent_seed(seed, before.id, before.loc))
                &&& match after.target {
                    Some(t) => headed(g, before, after, location_of(res, t), r),
                    None => r == EventType::Nothing && after.loc == before.loc && after.path@.len()
                        == 0,
                }
            },
            Some(tid) => match index_of(res, tid) {
                None => {
                    &&& after.target is None
                    &&& r == EventType::Nothing
                    &&& after.loc == before.loc
                    &&& after.path@.len() == 0
                },
                Some(k) => if before.loc == res[k].loc {
                    &&& r == EventType::Extract(tid, (EXTRACTION_QUANTITY, EXTRACTION_RATE_PERCENT))
                    &&& after.loc == before.loc
                    &&& after.path@.len() == 0
                    &&& if extracted_from(
                        res[k].remaining_quantity as int,
                        EXTRACTION_QUANTITY as int,
                        EXTRACTION_RATE_PERCENT as int,
                    ) == res[k].remaining_quantity {
                        picked(disc, res, Some(tid), after.target) && after.target == target_pick(
                            disc,
                            res,
                            Some(tid),
                            agent_seed(seed, before.id, before.loc),
                        )
                    } else {
                        after.target == before.target
                    }
                } else {
                    &&& headed(g, before, after, res[k].loc, r)
                    &&& after.target == before.target
                },
            },
        }
    }
}

proof fn lemma_index_of(resources: Seq<Resource>, k: int)
    requires
        ids_unique(resources),
        0 <= k < resources.len(),
    ensures
        index_of(resources, resources[k].id) == Some(k),
{
    let id = resources[k].id;
    assert(exists|j: int| 0 <= j < resources.len() && resources[j].id == id);
}

impl Gatherer {
    pub open spec fn load(&self) -> int {
        self.inventory.0 + self.inventory.1
    }

    pub open spec fn full(&self) -> bool {
        self.load() >= self.inventory_size
    }

    /// On the grid, with a bounded capacity and a load that one extraction past
    /// capacity cannot exceed, and a queued path on the grid.
    pub open spec fn wf(&self, g: Grid) -> bool {
        &&& g.in_bounds(self.loc.x as int, self.loc.y as int)
        &&& self.inventory_size <= MAX_INVENTORY_SIZE
        &&& self.load() <= self.inventory_size + EXTRACTION_QUANTITY
        &&& forall|i: int|
            0 <= i < self.path@.len() ==> g.in_bounds(
                #[trigger] self.path@[i].x as int,
                self.path@[i].y as int,
            )
    }

    pub fn new(loc: Localization, id_generator: &mut IDGenerator) -> (r: Self)
        requires
            old(id_generator).can_issue(),
        ensures
            r.id == old(id_generator).last() + 1,
            final(id_generator).last() == r.id,
            r.loc == loc,
            r.target is None,
            r.inventory == (0u16, 0u16),
            r.inventory_size == INVENTORY_SIZE,
            r.path@.len() == 0,
    {
        let id = id_generator.generate_id();
        Gatherer {
            id,
            loc,
            target: None,
            inventory: (0, 0),
            inventory_size: INVENTORY_SIZE,
            path: Vec::new(),
        }
    }

    /// Adds what the coordinator handed over after an extraction.
    pub fn collect(&mut self, amount: (u16, u16))
        requires
            old(self).inventory_size <= MAX_INVENTORY_SIZE,
            old(self).load() + amount.0 + amount.1 <= old(self).inventory_size + EXTRACTION_QUANTITY,
        ensures
            final(self).inventory == (
                (old(self).inventory.0 + amount.0) as u16,
                (old(self).inventory.1 + amount.1) as u16,
            ),
            final(self).id == old(self).id,
            final(self).loc == old(self).loc,
            final(self).target == old(self).target,
            final(self).inventory_size == old(self).inventory_size,
            final(self).path@ == old(self).path@,
            final(self).path == old(self).path,
    {
        self.inventory = (self.inventory.0 + amount.0, self.inventory.1 + amount.1);
    }

    /// Plans the path to `dest`: the breadth-first path there when there is one
    /// (empty when already there), else nothing.
    pub fn seek(&mut self, grid: &Grid, dest: Localization)
        requires
            grid.wf(),
            old(self).wf(*grid),
        ensures
            reachable(*grid, old(self).loc, dest) ==> is_walk(*grid, old(self).loc, final(self).path@)
                && walk_end(old(self).loc, final(self).path@) == dest,
            !reachable(*grid, old(self).loc, dest) || dest == old(self).loc ==> final(self).path@.len() == 0,
            final(self).path@ == match bfs_path(*grid, old(self).loc, dest) {
                Some(p) => p,
                None => Seq::empty(),
            },
            final(self).wf(*grid),
            final(self).id == old(self).id,
            final(self).loc == old(self).loc,
            final(self).target == old(self).target,
            final(self).inventory == old(self).inventory,
            final(self).inventory_size == old(self).inventory_size,
    {
        match find_shortest_path(grid, self.loc, dest) {
            Some(p) => {
                proof {
                    assert forall|i: int| 0 <= i < p@.len() implies grid.in_bounds(
                        #[trigger] p@[i].x as int,
                        p@[i].y as int,
                    ) by {
                        assert(grid.passable(p@[i].x as int, p@[i].y as int));
                    }
                }
                self.path = p;
            },
            None => {
                self.path = Vec::new();
            },
        }
    }

    /// Moves to the next cell of the queued path, if there is one.
    pub fn step(&mut self)
        ensures
            old(self).path@.len() > 0 ==> final(self).loc == old(self).path@[0] && final(self).path@
                == old(self).path@.drop_first(),
            old(self).path@.len() == 0 ==> final(self).loc == old(self).loc && final(self).path@.len() == 0,
            final(self).id == old(self).id,
            final(self).target == old(self).target,
            final(self).inventory == old(self).inventory,
            final(self).inventory_size == old(self).inventory_size,
    {
        if self.path.len() > 0 {
            let next = self.path.remove(0);
            assert(self.path@ =~= old(self).path@.drop_first());
            self.loc = next;
        }
    }

    /// Plans the path to `dest` and takes its first step in the same tick.
    fn head_to(&mut self, grid: &Grid, dest: Localization) -> (r: EventType)
        requires
            grid.wf(),
            old(self).wf(*grid),
        ensures
            headed(*grid, *old(self), *final(self), dest, r),
            final(self).wf(*grid),
            final(self).id == old(self).id,
            final(self).target == old(self).target,
            final(self).inventory == old(self).inventory,
            final(self).inventory_size == old(self).inventory_size,
    {
        let ghost before = *self;
        self.seek(grid, dest);
        if self.path.len() > 0 {
            proof {
                lemma_walk_tail(*grid, before.loc, self.path@);
            }
            self.step();
            EventType::Moved(self.loc)
        } else {
            proof {
                if dest != before.loc && reachable(*grid, before.loc, dest) {
                    assert(walk_end(before.loc, self.path@) == before.loc);
                }
            }
            EventType::Nothing
        }
    }

    /// One decision, as `decided` states it. The deposits and discovered ids
    /// are the snapshot taken when the tick was dispatched.
    #[verifier::rlimit(60)]
    pub fn decide(
        &mut self,
        finded_resources: &Vec<u32>,
        resources: &Vec<Resource>,
        seed: u64,
        grid: &Grid,
        base_loc: Localization,
    ) -> (r: EventType)
        requires
            grid.wf(),
            old(self).wf(*grid),
            ids_unique(resources@),
            forall|k: int|
                0 <= k < resources@.len() ==> grid.in_bounds(
                    #[trigger] resources@[k].loc.x as int,
                    resources@[k].loc.y as int,
                ),
            grid.in_bounds(base_loc.x as int, base_loc.y as int),
        ensures
            decided(*grid, finded_resources@, resources@, base_loc, seed, *old(self), *final(self), r),
            final(self).wf(*grid),
    {
        let ghost before = *self;
        if self.path.len() > 0 {
            self.step();
            return EventType::Moved(self.loc);
        }
        if self.inventory.0 + self.inventory.1 >= self.inventory_size {
            if base_loc.same_loc(&self.loc) {
                let deposit = self.inventory;
                self.inventory = (0, 0);
                return EventType::Deposit(deposit);
            }
            return self.head_to(grid, base_loc);
        }
        match self.target {
            None => {
                self.find(finded_resources, resources, seed, None);
                match self.target {
                    Some(t) => {
                        match find_resource_index(resources, t) {
                            Some(k) => {
                                proof {
                                    lemma_index_of(resources@, k as int);
                                }
                                let dest = resources[k].loc;
                                self.head_to(grid, dest)
                            },
                            None => {
                                proof {
                                    let k = choose|k: int|
                                        0 <= k < resources@.len() && resources@[k].id == t
                                            && resources@[k].remaining_quantity > 0;
                                }
                                EventType::Nothing
                            },
                        }
                    },
                    None => EventType::Nothing,
                }
            },
            Some(tid) => {
                match find_resource_index(resources, tid) {
                    None => {
                        self.target = None;
                        EventType::Nothing
                    },
                    Some(k) => {
                        proof {
                            lemma_index_of(resources@, k as int);
                        }
                        let res = resources[k];
                        if self.loc.same_loc(&res.loc) {
                            let mut probe = res;
                            let taken = probe.calculate_gather(
                                EXTRACTION_QUANTITY,
                                EXTRACTION_RATE_PERCENT,
                            );
                            if taken == res.remaining_quantity {
                                self.find(finded_resources, resources, seed, Some(tid));
                            }
                            EventType::Extract(tid, (EXTRACTION_QUANTITY, EXTRACTION_RATE_PERCENT))
                        } else {
                            self.head_to(grid, res.loc)
                        }
                    },
                }
            },
        }
    }

    /// What the gatherer does with a message: on `Tick` it decides and answers;
    /// on `Collect` it adds the amount to its inventory and does not answer.
    pub fn handle_event(
        &mut self,
        event: EventType,
        finded_resources: &Vec<u32>,
        resources: &Vec<Resource>,
        seed: u64,
        grid: &Grid,
        base_loc: Localization,
    ) -> (reply: Option<EventType>)
        requires
            grid.wf(),
            old(self).wf(*grid),
            ids_unique(resources@),
            forall|k: int|
                0 <= k < resources@.len() ==> grid.in_bounds(
                    #[trigger] resources@[k].loc.x as int,
                    resources@[k].loc.y as int,
                ),
            grid.in_bounds(base_loc.x as int, base_loc.y as int),
            (event matches EventType::Collect(a) ==> old(self).load() + a.0 + a.1
                <= old(self).inventory_size + EXTRACTION_QUANTITY),
        ensures
            final(self).wf(*grid),
            (event matches EventType::Tick ==> (reply matches Some(r) && decided(
                *grid,
                finded_resources@,
                resources@,
                base_loc,
                seed,
                *old(self),
                *final(self),
                r,
            ))),
            (event matches EventType::Collect(a) ==> reply is None && final(self).inventory == (
                (old(self).inventory.0 + a.0) as u16,
                (old(self).inventory.1 + a.1) as u16,
            ) && final(self).id == old(self).id && final(self).loc == old(self).loc
                && final(self).target == old(self).target && final(self).path == old(self).path
                && final(self).inventory_size == old(self).inventory_size),
            (!(event matches EventType::Tick) && !(event matches EventType::Collect(_))) ==> reply is None
                && *final(self) == *old(self),
    {
        match event {
            EventType::Tick => Some(self.decide(finded_resources, resources, seed, grid, base_loc)),
            EventType::Collect(a) => {
                self.collect(a);
                None
            },
            _ => None,
        }
    }

    /// Picks a target at random among the pickable deposits other than `skip`,
    /// with a generator seeded by `agent_seed(seed, id, loc)`.
    pub fn find(&mut self, finded_resources: &Vec<u32>, resources: &Vec<Resource>, seed: u64, skip: Option<u32>)
        ensures
            picked(finded_resources@, resources@, skip, final(self).target),
            final(self).target == target_pick(
                finded_resources@,
                resources@,
                skip,
                agent_seed(seed, old(self).id, old(self).loc),
            ),
            final(self).id == old(self).id,
            final(self).loc == old(self).loc,
            final(self).inventory == old(self).inventory,
            final(self).inventory_size == old(self).inventory_size,
            final(self).path@ == old(self).path@,
    {
        let mut candidates: Vec<u32> = Vec::new();
        let mut i: usize = 0;
        proof {
            assert(finded_resources@.subrange(0, 0) =~= Seq::<u32>::empty());
        }
        while i < finded_resources.len()
            invariant
                i <= finded_resources@.len(),
                candidates@ == candidates_of(finded_resources@.subrange(0, i as int), resources@, skip),
                forall|id: u32|
                    #[trigger] candidates@.contains(id) ==> pickable(finded_resources@, resources@, id)
                        && skip != Some(id),
                forall|k: int|
                    0 <= k < i && pickable(finded_resources@, resources@, #[trigger] finded_resources@[k])
                        && skip != Some(finded_resources@[k]) ==> candidates@.contains(finded_resources@[k]),
            decreases finded_resources@.len() - i,
        {
            let id = finded_resources[i];
            let skipped = match skip {
                Some(s) => s == id,
                None => false,
            };
            proof {
                assert(finded_resources@.subrange(0, i + 1).drop_last() =~= finded_resources@.subrange(0, i as int));
            }
            if !skipped && has_stock(resources, id) {
                proof {
                    assert(finded_resources@.contains(id)) by {
                        assert(finded_resources@[i as int] == id);
                    }
                    lemma_push_keeps_id(candidates@, id);
                }
                candidates.push(id);
            }
            i = i + 1;
        }
        proof {
            assert(finded_resources@.subrange(0, finded_resources@.len() as int) =~= finded_resources@);
        }
        let no_draws: Vec<usize> = Vec::new();
        let pick = choose_after(&candidates, seed_for(seed, self.id, self.loc), &no_draws);
        proof {
            assert(nats(no_draws@).push(candidates@.len()) =~= seq![candidates@.len()]);
        }
        proof {
            if pick is None {
                assert forall|id: u32| #[trigger] pickable(finded_resources@, resources@, id) implies skip == Some(id) by {
                    if skip != Some(id) {
                        let k = choose|k: int| 0 <= k < finded_resources@.len() && finded_resources@[k] == id;
                        assert(candidates@.contains(finded_resources@[k]));
                    }
                }
            } else {
                let k = seeded_pick_after(agent_seed(seed, self.id, self.loc), seq![candidates@.len()]) as int;
                assert(candidates@.contains(candidates@[k]));
            }
        }
        self.target = pick;
    }
}

proof fn lemma_push_keeps_id(s: Seq<u32>, x: u32)
    ensures
        forall|u: u32| s.contains(u) ==> #[trigger] s.push(x).contains(u),
        s.push(x).contains(x),
        forall|u: u32| #[trigger] s.push(x).contains(u) ==> s.contains(u) || u == x,
{
    assert forall|u: u32| s.contains(u) implies #[trigger] s.push(x).contains(u) by {
        let i = choose|i: int| 0 <= i < s.len() && s[i] == u;
        assert(s.push(x)[i] == u);
    }
    assert(s.push(x)[s.len() as int] == x);
    assert forall|u: u32| #[trigger] s.push(x).contains(u) implies s.contains(u) || u == x by {
        let i = choose|i: int| 0 <= i < s.len() + 1 && s.push(x)[i] == u;
        if i < s.len() {
            assert(s[i] == u);
        }
    }
}

/// Whether a deposit with identifier `id` is present and not exhausted.
fn has_stock(resources: &Vec<Resource>, id: u32) -> (r: bool)
    ensures
        r == exists|k: int|
            0 <= k < resources@.len() && resources@[k].id == id && resources@[k].remaining_quantity > 0,
{
    let mut i: usize = 0;
    while i < resources.len()
        invariant
            i <= resources@.len(),
            forall|k: int|
                0 <= k < i ==> !(resources@[k].id == id && resources@[k].remaining_quantity > 0),
        decreases resources@.len() - i,
    {
        if resources[i].id == id && resources[i].remaining_quantity > 0 {
            return true;
        }
        i = i + 1;
    }
    false
}

/// The index of the first deposit with identifier `id`.
pub fn find_resource_index(resources: &Vec<Resource>, id: u32) -> (r: Option<usize>)
    ensures
        (r matches Some(k) ==> k < resources@.len() && resources@[k as int].id == id),
        r is None <==> !exists|k: int| 0 <= k < resources@.len() && resources@[k].id == id,
{
    let mut i: usize = 0;
    while i < resources.len()
        invariant
            i <= resources@.len(),
            forall|k: int| 0 <= k < i ==> resources@[k].id != id,
        decreases resources@.len() - i,
    {
        if resources[i].id == id {
            return Some(i);
        }
        i = i + 1;
    }
    None
}

} // verus!
