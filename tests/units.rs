use swarm_sim::events::EventType;
use swarm_sim::grid::{Grid, Localization, Terrain, FRESH, UNSEEN};
use swarm_sim::id_generator::IDGenerator;
use swarm_sim::pathfinder::find_shortest_path;
use swarm_sim::resources::{Resource, ResourceKind};
use swarm_sim::scout::{get_circle_cells, seed_for};

fn loc(x: u32, y: u32) -> Localization {
    Localization { x, y }
}

fn deposit(id: u32, at: Localization, kind: ResourceKind, qty: u16) -> Resource {
    Resource { id, loc: at, kind, initial_quantity: qty, remaining_quantity: qty }
}

#[test]
fn ids_start_at_one_and_increase() {
    let mut ids = IDGenerator::new();
    assert!(ids.has_next());
    assert_eq!(ids.generate_id(), 1);
    assert_eq!(ids.generate_id(), 2);
    assert_eq!(ids.generate_id(), 3);
}

#[test]
fn same_loc_compares_both_coordinates() {
    assert!(loc(2, 3).same_loc(&loc(2, 3)));
    assert!(!loc(2, 3).same_loc(&loc(3, 2)));
    assert!(!loc(2, 3).same_loc(&loc(2, 4)));
}

#[test]
fn kind_labels_ignore_case() {
    assert_eq!(ResourceKind::from_str("crystal"), Some(ResourceKind::Crystal));
    assert_eq!(ResourceKind::from_str("CrYsTaL"), Some(ResourceKind::Crystal));
    assert_eq!(ResourceKind::from_str("ENERGY"), Some(ResourceKind::Energy));
    assert_eq!(ResourceKind::from_str("stone"), None);
    assert_eq!(ResourceKind::from_str(""), None);
    assert_eq!(ResourceKind::from_str("crystals"), None);
}

#[test]
fn gather_takes_the_request_when_there_is_enough() {
    let mut r = deposit(1, loc(0, 0), ResourceKind::Crystal, 40);
    assert_eq!(r.gather(10, 100), (10, 0));
    assert_eq!(r.remaining_quantity, 30);
    assert_eq!(r.initial_quantity, 40);
}

#[test]
fn gather_is_clamped_to_what_remains() {
    let mut r = deposit(1, loc(0, 0), ResourceKind::Crystal, 5);
    assert_eq!(r.gather(10, 100), (5, 0));
    assert_eq!(r.remaining_quantity, 0);
    assert_eq!(r.gather(10, 100), (0, 0));
    assert_eq!(r.remaining_quantity, 0);
}

#[test]
fn gather_of_energy_fills_the_second_slot() {
    let mut r = deposit(2, loc(0, 0), ResourceKind::Energy, 40);
    assert_eq!(r.gather(10, 100), (0, 10));
    assert_eq!(r.remaining_quantity, 30);
}

#[test]
fn gather_rounds_request_times_rate() {
    let mut r = deposit(3, loc(0, 0), ResourceKind::Crystal, 100);
    assert_eq!(r.calculate_gather(10, 150), 15);
    assert_eq!(r.calculate_gather(25, 50), 13);
    assert_eq!(r.calculate_gather(3, 10), 0);
    assert_eq!(r.remaining_quantity, 72);
}

#[test]
fn new_resource_is_full() {
    let mut ids = IDGenerator::new();
    let r = Resource::new_resource(loc(4, 5), ResourceKind::Energy, 40, &mut ids);
    assert_eq!(r.id, 1);
    assert_eq!(r.remaining_quantity, 40);
    assert_eq!(r.initial_quantity, 40);
    assert_eq!(r.kind.glyph(), 'E');
}

#[test]
fn new_grid_is_unseen_but_for_the_base() {
    let g = Grid::new(5, 7);
    assert_eq!(g.cells.len(), 5);
    assert_eq!(g.cells[0].len(), 7);
    for x in 0..5usize {
        for y in 0..7usize {
            let c = g.cells[x][y];
            let in_base = (1..=3).contains(&x) && (2..=4).contains(&y);
            if in_base {
                assert_eq!(c.terrain, Terrain::Base);
                assert_eq!(c.explore, FRESH);
            } else {
                assert_eq!(c.terrain, Terrain::Open);
                assert_eq!(c.explore, UNSEEN);
            }
        }
    }
}

#[test]
fn decay_lowers_positive_freshness_outside_the_base() {
    let mut g = Grid::new(9, 9);
    g.cells[0][0].explore = 5;
    g.cells[0][1].explore = 0;
    g.decay_passage_counters();
    assert_eq!(g.cells[0][0].explore, 4);
    assert_eq!(g.cells[0][1].explore, 0);
    assert_eq!(g.cells[0][2].explore, UNSEEN);
    assert_eq!(g.cells[4][4].explore, FRESH);
    assert_eq!(g.cells[3][3].explore, FRESH);
}

#[test]
fn observation_marks_the_clipped_neighbourhood() {
    let mut g = Grid::new(9, 9);
    g.mark_observed(0, 0);
    assert_eq!(g.cells[0][0].explore, FRESH);
    assert_eq!(g.cells[1][1].explore, FRESH);
    assert_eq!(g.cells[0][1].explore, FRESH);
    assert_eq!(g.cells[2][0].explore, UNSEEN);
    assert_eq!(g.cells[0][2].explore, UNSEEN);
}

#[test]
fn layout_keeps_base_and_safe_zone_clear() {
    let mut g = Grid::new(5, 5);
    let obstacle = vec![vec![true; 5]; 5];
    let mut safe = vec![vec![false; 5]; 5];
    safe[0][0] = true;
    g.apply_layout(&obstacle, &safe);
    assert_eq!(g.cells[0][0].terrain, Terrain::Open);
    assert_eq!(g.cells[0][1].terrain, Terrain::Obstacle);
    assert_eq!(g.cells[2][2].terrain, Terrain::Base);
    assert_eq!(g.cells[1][1].terrain, Terrain::Base);
    assert!(!g.is_passable(4, 4));
    assert!(g.is_passable(2, 2));
}

#[test]
fn ring_cells_are_two_away_along_rows_and_columns() {
    let cells = get_circle_cells(loc(5, 5), 20, 20);
    assert_eq!(cells, vec![loc(3, 5), loc(5, 3), loc(5, 7), loc(7, 5)]);
    let corner = get_circle_cells(loc(0, 1), 20, 20);
    assert_eq!(corner, vec![loc(0, 3), loc(2, 1)]);
}

#[test]
fn agent_seed_follows_the_formula() {
    assert_eq!(seed_for(0, 1, loc(0, 0)), 31);
    assert_eq!(seed_for(100, 1, loc(1, 1)), 161);
    assert_eq!(seed_for(0, 2, loc(3, 4)), 32 * 31 + 3 * 17 + 4 * 13);
    assert_eq!(seed_for(u64::MAX, 1, loc(0, 0)), 30);
}

#[test]
fn path_excludes_start_and_ends_at_target() {
    let g = Grid::new(10, 10);
    let p = find_shortest_path(&g, loc(0, 0), loc(0, 3)).unwrap();
    assert_eq!(p, vec![loc(0, 1), loc(0, 2), loc(0, 3)]);
    let same = find_shortest_path(&g, loc(2, 2), loc(2, 2)).unwrap();
    assert!(same.is_empty());
}

#[test]
fn path_goes_around_obstacles() {
    let mut g = Grid::new(10, 10);
    for x in 0..9usize {
        g.cells[x][2].terrain = Terrain::Obstacle;
    }
    let p = find_shortest_path(&g, loc(0, 0), loc(0, 4)).unwrap();
    assert_eq!(*p.last().unwrap(), loc(0, 4));
    for c in &p {
        assert_ne!(g.cells[c.x as usize][c.y as usize].terrain, Terrain::Obstacle);
    }
    let mut prev = loc(0, 0);
    for c in &p {
        let d = (c.x as i64 - prev.x as i64).abs() + (c.y as i64 - prev.y as i64).abs();
        assert_eq!(d, 1);
        prev = *c;
    }
    assert_eq!(p.len(), 22);
}

#[test]
fn path_is_none_when_walled_off() {
    let mut g = Grid::new(10, 10);
    for x in 0..10usize {
        g.cells[x][2].terrain = Terrain::Obstacle;
    }
    assert!(find_shortest_path(&g, loc(0, 0), loc(0, 4)).is_none());
    assert!(find_shortest_path(&g, loc(0, 0), loc(50, 50)).is_none());
}

#[test]
fn pathfinding_twice_gives_the_same_path() {
    let mut g = Grid::new(12, 12);
    g.cells[3][3].terrain = Terrain::Obstacle;
    g.cells[3][4].terrain = Terrain::Obstacle;
    let a = find_shortest_path(&g, loc(0, 0), loc(11, 11));
    let b = find_shortest_path(&g, loc(0, 0), loc(11, 11));
    assert_eq!(a, b);
    assert_eq!(a.unwrap().len(), 22);
}

#[test]
fn events_carry_their_payload() {
    let e = EventType::Extract(7, (10, 100));
    match e {
        EventType::Extract(id, (q, rate)) => {
            assert_eq!(id, 7);
            assert_eq!(q, 10);
            assert_eq!(rate, 100);
        }
        _ => panic!("wrong variant"),
    }
}
