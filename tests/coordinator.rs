use swarm_sim::events::EventType;
use swarm_sim::game::{create_new_game, Game, Mission};
use swarm_sim::gatherer::Gatherer;
use swarm_sim::grid::{Localization, Terrain, FRESH};
use swarm_sim::id_generator::IDGenerator;
use swarm_sim::resources::{Resource, ResourceKind};
use swarm_sim::scout::Scout;

use noise::{NoiseFn, Perlin};

fn loc(x: u32, y: u32) -> Localization {
    Localization { x, y }
}

fn blank(rows: u32, cols: u32) -> Game {
    Game::new(rows, cols, 44, ' ', '8', '#', 'S', 'G')
}

fn put_deposit(g: &mut Game, id: u32, at: Localization, kind: ResourceKind, qty: u16) {
    g.resources.push(Resource { id, loc: at, kind, initial_quantity: qty, remaining_quantity: qty });
    g.stock += qty as u64;
}

fn crystal_total(g: &Game) -> u64 {
    let carried: u64 = g.gatherers.iter().map(|x| x.inventory.0 as u64).sum();
    let stored: u64 = g
        .resources
        .iter()
        .filter(|r| r.kind == ResourceKind::Crystal)
        .map(|r| r.remaining_quantity as u64)
        .sum();
    g.base.crystal + carried + stored
}

fn energy_total(g: &Game) -> u64 {
    let carried: u64 = g.gatherers.iter().map(|x| x.inventory.1 as u64).sum();
    let stored: u64 = g
        .resources
        .iter()
        .filter(|r| r.kind == ResourceKind::Energy)
        .map(|r| r.remaining_quantity as u64)
        .sum();
    g.base.energy + carried + stored
}

fn masks(rows: u32, cols: u32, seed: u64) -> (Vec<Vec<bool>>, Vec<Vec<bool>>) {
    let perlin = Perlin::new();
    let scale = ((rows + cols) as f64) / 10.0;
    let threshold = perlin.get([seed as f64 / 100.0, seed as f64 / 100.0]);
    let cx = (rows / 2) as f64;
    let cy = (cols / 2) as f64;
    let mut obstacle = vec![vec![false; cols as usize]; rows as usize];
    let mut safe = vec![vec![false; cols as usize]; rows as usize];
    for i in 0..rows {
        for j in 0..cols {
            let n = perlin.get([i as f64 / scale, j as f64 / scale]);
            obstacle[i as usize][j as usize] = n > threshold + 0.2;
            let dist = ((i as f64 - cx).powi(2) + (j as f64 - cy).powi(2)).sqrt();
            safe[i as usize][j as usize] = dist < 6.0 + n * 5.0;
        }
    }
    (obstacle, safe)
}

#[test]
fn extraction_then_delivery_to_base() {
    let mut g = blank(15, 15);
    let mut ids = IDGenerator::new();
    g.add_gatherer(2, 2, &mut ids);
    put_deposit(&mut g, 100, loc(2, 2), ResourceKind::Crystal, 40);
    g.gatherers[0].target = Some(100);

    g.tick();
    assert_eq!(g.gatherers[0].inventory, (10, 0));
    assert_eq!(g.resources[0].remaining_quantity, 30);
    assert_eq!(g.gatherers[0].loc, loc(2, 2));

    g.tick();
    let moved = g.gatherers[0].loc;
    let step = (moved.x as i64 - 2).abs() + (moved.y as i64 - 2).abs();
    assert_eq!(step, 1);
    assert_eq!(g.gatherers[0].inventory, (10, 0));
    assert_eq!(g.resources[0].remaining_quantity, 30);

    let mut ticks = 0;
    while g.base.crystal == 0 && ticks < 40 {
        g.tick();
        ticks += 1;
    }
    assert_eq!(g.base.crystal, 10);
    assert_eq!(g.base.energy, 0);
    assert_eq!(g.gatherers[0].inventory, (0, 0));
    assert_eq!(g.gatherers[0].loc, g.base.loc);
}

#[test]
fn two_requests_share_a_small_deposit_in_id_order() {
    let mut g = blank(15, 15);
    let mut ids = IDGenerator::new();
    g.add_gatherer(2, 2, &mut ids);
    g.add_gatherer(2, 2, &mut ids);
    put_deposit(&mut g, 100, loc(2, 2), ResourceKind::Crystal, 5);
    g.gatherers[0].target = Some(100);
    g.gatherers[1].target = Some(100);
    assert!(g.gatherers[0].id < g.gatherers[1].id);

    g.tick();
    assert_eq!(g.gatherers[0].inventory, (5, 0));
    assert_eq!(g.gatherers[1].inventory, (0, 0));
    assert!(g.resources.is_empty());
    assert_eq!(g.gatherers[0].target, None);
    assert_eq!(g.gatherers[1].target, None);
    assert_eq!(crystal_total(&g), 5);
}

#[test]
fn scout_with_a_fresh_ring_still_moves_one_cell() {
    let mut g = blank(15, 15);
    let mut ids = IDGenerator::new();
    g.add_scout(7, 7, &mut ids);
    for (x, y) in [(5usize, 7usize), (9, 7), (7, 5), (7, 9)] {
        g.grid.cells[x][y].explore = FRESH;
    }
    let before = g.scouts[0].loc;
    g.tick();
    let after = g.scouts[0].loc;
    let d = (after.x as i64 - before.x as i64).abs() + (after.y as i64 - before.y as i64).abs();
    assert_eq!(d, 1);
    assert_eq!(g.scouts[0].prev_loc, before);
}

#[test]
fn scout_explore_prefers_the_stalest_ring_cell() {
    let mut g = blank(15, 15);
    let mut scout = Scout { id: 1, loc: loc(7, 7), prev_loc: loc(7, 7) };
    for (x, y) in [(5usize, 7usize), (9, 7), (7, 5)] {
        g.grid.cells[x][y].explore = FRESH;
    }
    g.grid.cells[7][9].explore = 3;
    scout.explore(&g.grid, 44);
    assert_eq!(scout.loc, loc(7, 8));
}

#[test]
fn boxed_in_scout_steps_back() {
    let mut g = blank(15, 15);
    for (x, y) in [(0usize, 1usize), (1, 0), (1, 1)] {
        g.grid.cells[x][y].terrain = Terrain::Obstacle;
    }
    let mut scout = Scout { id: 1, loc: loc(0, 0), prev_loc: loc(0, 0) };
    scout.explore(&g.grid, 44);
    assert_eq!(scout.loc, loc(0, 0));
    let mut wanderer = Scout { id: 2, loc: loc(0, 0), prev_loc: loc(3, 3) };
    wanderer.explore(&g.grid, 44);
    assert_eq!(wanderer.loc, loc(3, 3));
    assert_eq!(wanderer.prev_loc, loc(0, 0));
}

#[test]
fn render_twice_without_tick_is_identical() {
    let (obstacle, safe) = masks(20, 40, 44);
    let mut g = create_new_game(20, 40, 44, 2, 3, 6, ' ', '8', '#', 'S', 'G', &obstacle, &safe);
    g.tick();
    let a = g.render();
    let b = g.render();
    assert_eq!(a, b);
    assert_eq!(a.0.len(), 20);
    assert_eq!(a.0[0].len(), 40);
}

#[test]
fn render_shows_agents_over_terrain_and_hides_unseen_cells() {
    let mut g = blank(9, 9);
    let mut ids = IDGenerator::new();
    g.grid.cells[0][0].terrain = Terrain::Obstacle;
    put_deposit(&mut g, 50, loc(8, 8), ResourceKind::Energy, 10);
    put_deposit(&mut g, 51, loc(8, 0), ResourceKind::Crystal, 10);
    g.grid.cells[8][0].explore = 3;
    g.add_scout(4, 4, &mut ids);
    g.add_gatherer(3, 3, &mut ids);
    let (m, c, e) = g.render();
    assert_eq!(m[4][4], 'S');
    assert_eq!(m[3][3], 'G');
    assert_eq!(m[5][5], '#');
    assert_eq!(m[0][0], ' ');
    assert_eq!(m[8][8], ' ');
    assert_eq!(m[8][0], 'C');
    assert_eq!((c, e), (0, 0));
    g.grid.cells[0][0].explore = 1;
    assert_eq!(g.generate_display()[0][0], '8');
}

#[test]
fn generation_is_repeatable() {
    let (o1, s1) = masks(20, 40, 44);
    let (o2, s2) = masks(20, 40, 44);
    assert_eq!(o1, o2);
    assert_eq!(s1, s2);
    let a = create_new_game(20, 40, 44, 0, 0, 0, ' ', '8', '#', 'S', 'G', &o1, &s1);
    let b = create_new_game(20, 40, 44, 0, 0, 0, ' ', '8', '#', 'S', 'G', &o2, &s2);
    for x in 0..20usize {
        for y in 0..40usize {
            assert_eq!(a.grid.cells[x][y], b.grid.cells[x][y]);
        }
    }
    for x in 9..=11usize {
        for y in 19..=21usize {
            assert_eq!(a.grid.cells[x][y].terrain, Terrain::Base);
            assert_eq!(a.grid.cells[x][y].explore, FRESH);
        }
    }
}

#[test]
fn deposits_stay_within_bounds_and_material_is_conserved() {
    let (obstacle, safe) = masks(20, 30, 7);
    let mut g = create_new_game(20, 30, 7, 4, 6, 10, ' ', '8', '#', 'S', 'G', &obstacle, &safe);
    let crystal = crystal_total(&g);
    let energy = energy_total(&g);
    assert!(crystal > 0);
    let mut last_base = (0u64, 0u64);
    for _ in 0..300 {
        g.tick();
        for r in &g.resources {
            assert!(r.remaining_quantity > 0);
            assert!(r.remaining_quantity <= r.initial_quantity);
        }
        assert_eq!(crystal_total(&g), crystal);
        assert_eq!(energy_total(&g), energy);
        assert!(g.base.crystal >= last_base.0 && g.base.energy >= last_base.1);
        last_base = (g.base.crystal, g.base.energy);
    }
    assert_eq!(g.age, 300);
}

#[test]
fn create_places_agents_at_the_centre() {
    let (obstacle, safe) = masks(16, 16, 3);
    let g = create_new_game(16, 16, 3, 2, 3, 4, ' ', '8', '#', 'S', 'G', &obstacle, &safe);
    assert_eq!(g.scouts.len(), 3);
    assert_eq!(g.gatherers.len(), 2);
    assert!(g.resources.len() <= 4);
    for s in &g.scouts {
        assert_eq!(s.loc, loc(8, 8));
    }
    let ids: Vec<u32> = g.gatherers.iter().map(|x| x.id).collect();
    assert!(ids.windows(2).all(|w| w[0] < w[1]));
}

#[test]
fn add_resource_lands_on_a_free_cell() {
    let mut g = blank(10, 10);
    let mut ids = IDGenerator::new();
    g.add_resource("Crystal", 40, &mut ids);
    g.add_resource("energy", 40, &mut ids);
    assert_eq!(g.resources.len(), 2);
    assert_eq!(g.stock, 80);
    for r in &g.resources {
        let c = g.grid.cells[r.loc.x as usize][r.loc.y as usize];
        assert_eq!(c.terrain, Terrain::Open);
    }
    assert_ne!(g.resources[0].loc, g.resources[1].loc);
    assert_eq!(g.resources[0].kind, ResourceKind::Crystal);
    assert_eq!(g.resources[1].kind, ResourceKind::Energy);
    g.add_resource("stone", 40, &mut ids);
    assert_eq!(g.resources.len(), 2);
}

#[test]
fn free_cell_search_fills_a_nearly_full_grid() {
    let mut g = blank(3, 3);
    let mut ids = IDGenerator::new();
    assert!(g.find_free_localization().is_none());
    let mut g2 = blank(4, 3);
    g2.add_resource("crystal", 10, &mut ids);
    assert_eq!(g2.resources.len(), 1);
    let spot = g2.resources[0].loc;
    assert_eq!(g2.grid.cells[spot.x as usize][spot.y as usize].terrain, Terrain::Open);
    g2.add_resource("crystal", 10, &mut ids);
    g2.add_resource("crystal", 10, &mut ids);
    g2.add_resource("crystal", 10, &mut ids);
    assert_eq!(g2.resources.len(), 3);
    assert!(g2.find_free_localization().is_none());
    g.add_resource("energy", 5, &mut ids);
    assert!(g.resources.is_empty());
}

#[test]
fn scouts_discover_nearby_deposits() {
    let mut g = blank(15, 15);
    let mut ids = IDGenerator::new();
    put_deposit(&mut g, 77, loc(2, 2), ResourceKind::Energy, 20);
    g.add_scout(2, 3, &mut ids);
    g.scouts[0].prev_loc = loc(2, 3);
    g.update_explore_matrix();
    assert_eq!(g.finded_resources, vec![77]);
    assert_eq!(g.grid.cells[1][2].explore, FRESH);
    g.update_explore_matrix();
    assert_eq!(g.finded_resources, vec![77]);
}

#[test]
fn idle_gatherer_picks_a_discovered_deposit() {
    let mut g = blank(15, 15);
    let mut ids = IDGenerator::new();
    g.add_gatherer(7, 7, &mut ids);
    put_deposit(&mut g, 9, loc(1, 1), ResourceKind::Crystal, 20);
    put_deposit(&mut g, 8, loc(13, 13), ResourceKind::Energy, 0);
    g.finded_resources = vec![8, 9];
    g.tick();
    assert_eq!(g.gatherers[0].target, Some(9));
    let l = g.gatherers[0].loc;
    assert_eq!((l.x as i64 - 7).abs() + (l.y as i64 - 7).abs(), 1);
}

#[test]
fn gatherer_follows_its_queued_path() {
    let g = blank(15, 15);
    let mut ids = IDGenerator::new();
    let mut w = Gatherer::new(loc(2, 2), &mut ids);
    w.path = vec![loc(2, 3), loc(2, 4)];
    let r = w.decide(&g.finded_resources, &g.resources, 1, &g.grid, g.base.loc);
    assert!(matches!(r, EventType::Moved(p) if p == loc(2, 3)));
    assert_eq!(w.path, vec![loc(2, 4)]);
}

#[test]
fn gatherer_answers_collect_without_reply() {
    let g = blank(15, 15);
    let mut ids = IDGenerator::new();
    let mut w = Gatherer::new(loc(2, 2), &mut ids);
    let r = w.handle_event(EventType::Collect((3, 4)), &g.finded_resources, &g.resources, 1, &g.grid, g.base.loc);
    assert!(r.is_none());
    assert_eq!(w.inventory, (3, 4));
}

#[test]
fn full_gatherer_at_base_deposits() {
    let mut g = blank(15, 15);
    let mut ids = IDGenerator::new();
    g.add_gatherer(7, 7, &mut ids);
    g.gatherers[0].inventory = (6, 4);
    g.stock += 10;
    g.tick();
    assert_eq!(g.base.crystal, 6);
    assert_eq!(g.base.energy, 4);
    assert_eq!(g.gatherers[0].inventory, (0, 0));
}

#[test]
fn handle_event_ignores_other_messages() {
    let mut g = blank(15, 15);
    g.handle_event(EventType::Nothing);
    assert_eq!(g.age, 0);
    g.handle_event(EventType::Tick);
    assert_eq!(g.age, 1);
}

#[test]
fn mission_labels_ignore_case() {
    assert_eq!(Mission::from_str("Scout"), Some(Mission::Scout));
    assert_eq!(Mission::from_str("GATHERER"), Some(Mission::Gatherer));
    assert_eq!(Mission::from_str("miner"), None);
}

#[test]
fn add_bot_spawns_by_label_and_ignores_unknown_ones() {
    let mut g = blank(15, 15);
    let mut ids = IDGenerator::new();
    g.add_bot("scout", 1, 1, &mut ids);
    g.add_bot("Gatherer", 2, 2, &mut ids);
    g.add_bot("pilot", 3, 3, &mut ids);
    g.add_bot("scout", 99, 99, &mut ids);
    assert_eq!(g.scouts.len(), 1);
    assert_eq!(g.gatherers.len(), 1);
    assert_eq!(g.scouts[0].id, 1);
    assert_eq!(g.gatherers[0].id, 2);
    assert!(ids.has_next());
    assert_eq!(ids.generate_id(), 3);
}

#[test]
fn gatherers_are_kept_in_id_order() {
    let mut g = blank(15, 15);
    let mut late = IDGenerator::new();
    for _ in 0..5 {
        late.generate_id();
    }
    let mut early = IDGenerator::new();
    g.add_gatherer(1, 1, &mut late);
    g.add_gatherer(2, 2, &mut early);
    g.add_gatherer(3, 3, &mut early);
    let ids: Vec<u32> = g.gatherers.iter().map(|x| x.id).collect();
    assert_eq!(ids, vec![1, 2, 6]);
}

#[test]
fn deposit_lookup_by_location() {
    let mut g = blank(15, 15);
    put_deposit(&mut g, 31, loc(4, 9), ResourceKind::Energy, 12);
    let found = g.find_resource_by_loc(4, 9).unwrap();
    assert_eq!(found.id, 31);
    assert_eq!(found.remaining_quantity, 12);
    assert!(g.find_resource_by_loc(9, 4).is_none());
}

#[test]
fn scout_falls_back_to_any_reachable_ring_cell() {
    let mut g = blank(15, 15);
    for (x, y) in [(0usize, 7usize), (1, 6), (1, 8), (2, 6), (2, 8)] {
        g.grid.cells[x][y].terrain = Terrain::Obstacle;
    }
    g.grid.cells[1][7].explore = 0;
    g.grid.cells[2][7].terrain = Terrain::Obstacle;
    for (x, y) in [(3usize, 5usize), (3, 9), (5, 7)] {
        g.grid.cells[x][y].explore = 20;
    }
    let mut scout = Scout { id: 3, loc: loc(3, 7), prev_loc: loc(4, 7) };
    scout.explore(&g.grid, 44);
    let d = (scout.loc.x as i64 - 3).abs() + (scout.loc.y as i64 - 7).abs();
    assert_eq!(d, 1);
    assert_ne!(scout.loc, loc(2, 7));
    assert_eq!(scout.prev_loc, loc(3, 7));
}

#[test]
fn identical_scouts_make_identical_moves() {
    let mut g = blank(15, 15);
    g.grid.cells[7][9].explore = 3;
    g.grid.cells[5][7].explore = 3;
    let mut a = Scout { id: 4, loc: loc(7, 7), prev_loc: loc(7, 6) };
    let mut b = Scout { id: 4, loc: loc(7, 7), prev_loc: loc(7, 6) };
    a.explore(&g.grid, 99);
    b.explore(&g.grid, 99);
    assert_eq!(a.loc, b.loc);
    assert_eq!(a.prev_loc, b.prev_loc);
    let d = (a.loc.x as i64 - 7).abs() + (a.loc.y as i64 - 7).abs();
    assert_eq!(d, 1);
}

#[test]
fn identical_gatherers_pick_the_same_target() {
    let mut g = blank(15, 15);
    let mut ids = IDGenerator::new();
    for k in 0..6u32 {
        put_deposit(&mut g, 20 + k, loc(1, 2 * k), ResourceKind::Crystal, 10);
    }
    g.finded_resources = vec![20, 21, 22, 23, 24, 25];
    let mut a = Gatherer::new(loc(7, 7), &mut ids);
    let mut b = Gatherer::new(loc(7, 7), &mut ids);
    b.id = a.id;
    a.find(&g.finded_resources, &g.resources, 5, None);
    b.find(&g.finded_resources, &g.resources, 5, None);
    assert!(a.target.is_some());
    assert_eq!(a.target, b.target);
    a.find(&g.finded_resources, &g.resources, 5, a.target);
    assert_ne!(a.target, b.target);
}

#[test]
fn placement_depends_on_seed_and_age_alone() {
    let a = blank(12, 12);
    let b = blank(12, 12);
    assert_eq!(a.find_free_localization(), b.find_free_localization());
    let p = a.find_free_localization().unwrap();
    assert_eq!(a.grid.cells[p.x as usize][p.y as usize].terrain, Terrain::Open);
}

#[test]
fn scout_answers_a_tick_with_its_new_place() {
    let g = blank(15, 15);
    let mut s = Scout { id: 2, loc: loc(3, 3), prev_loc: loc(3, 3) };
    let r = s.handle_event(EventType::Tick, &g.grid, 8);
    assert!(matches!(r, Some(EventType::Moved(p)) if p == s.loc));
    assert_ne!(s.loc, loc(3, 3));
    let r2 = s.handle_event(EventType::Nothing, &g.grid, 8);
    assert!(r2.is_none());
}
