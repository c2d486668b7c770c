use navegacao::agent::{AgentStatus, DEFAULT_FUEL, DEPLETED_FUEL};
use navegacao::behavior::{
    AlertColor, DirectionDeviateDecorator, SpeedBoostDecorator, VisualAlertDecorator, BOOST_MAX_MS,
    BOOST_MAX_PERCENT, BOOST_MIN_MS, BOOST_MIN_PERCENT, JITTER_MAX_OFFSET,
};
use navegacao::command::{AgentMotion, CommandManager, MoveCommand};
use navegacao::factory::{
    init_system, CardinalSimulationFactory, ConfigInitHandler, GridFactory, GridInitHandler, InitContext,
    RectangularGridFactory,
};
use navegacao::grid::{generate_agent_tasks, tasks_from_samples, CellType, Grid};
use navegacao::observer::AgentEvent;
use navegacao::path_cache::PathManager;
use navegacao::pathfinding::{a_star_search, a_star_with_adapter, heuristic, AStarCardinal, PathfindingAlgorithm};
use navegacao::pheromone::{PheromoneManager, DANGER_THRESHOLD, MAX_INTENSITY};
use navegacao::projection::{grid_to_screen_center, screen_to_grid};
use navegacao::topology::{
    GridAdapter, HexagonalAdapter, RectangularCardinalAdapter, RectangularDiagonalAdapter,
};
use navegacao::world::{lane_tasks, SpawnError, TopologyTag, World};

fn path_cost<A: GridAdapter>(a: &A, p: &[(usize, usize)]) -> usize {
    p.windows(2).map(|w| a.movement_cost(w[0], w[1])).sum()
}

fn assert_adjacent_steps<A: GridAdapter>(a: &A, p: &[(usize, usize)]) {
    for w in p.windows(2) {
        assert!(a.get_neighbors(w[0]).contains(&w[1]));
    }
}

#[test]
fn grid_out_of_range_is_blocked() {
    let mut g = Grid::new(3, 2);
    assert!(!g.is_obstacle(2, 1));
    assert!(g.is_obstacle(3, 0));
    assert!(g.is_obstacle(0, 2));
    g.set_cell(1, 1, CellType::Obstacle);
    assert!(g.is_obstacle(1, 1));
    assert_eq!(g.get_cell(1, 1), Some(CellType::Obstacle));
    assert_eq!(g.get_cell(5, 5), None);
    g.set_cell(9, 9, CellType::Obstacle);
    assert_eq!(g.width, 3);
    assert_eq!(g.height, 2);
    g.clear();
    assert!(!g.is_obstacle(1, 1));
}

#[test]
fn random_empty_cell_on_full_grid_is_none() {
    let mut g = Grid::new(2, 2);
    for x in 0..2 {
        for y in 0..2 {
            g.set_cell(x, y, CellType::Obstacle);
        }
    }
    assert_eq!(g.get_random_empty_cell(), None);
    assert_eq!(Grid::new(0, 5).get_random_empty_cell(), None);
}

#[test]
fn random_empty_cell_is_open() {
    let mut g = Grid::new(4, 4);
    g.set_cell(0, 0, CellType::Obstacle);
    for _ in 0..20 {
        if let Some((x, y)) = g.get_random_empty_cell() {
            assert!(x < 4 && y < 4);
            assert!(!g.is_obstacle(x, y));
        }
    }
}

#[test]
fn cardinal_neighbors_at_corner_and_around_walls() {
    let mut g = Grid::new(3, 3);
    let a = RectangularCardinalAdapter::new(&g);
    let mut n = a.get_neighbors((0, 0));
    n.sort();
    assert_eq!(n, vec![(0, 1), (1, 0)]);
    assert_eq!(a.get_neighbors((1, 1)).len(), 4);
    assert_eq!(a.movement_cost((0, 0), (0, 1)), 10);
    g.set_cell(1, 0, CellType::Obstacle);
    let a = RectangularCardinalAdapter::new(&g);
    assert_eq!(a.get_neighbors((0, 0)), vec![(0, 1)]);
    assert!(!a.is_valid_position((1, 0)));
    assert!(!a.is_valid_position((3, 0)));
}

#[test]
fn diagonal_neighbors_and_costs() {
    let g = Grid::new(3, 3);
    let a = RectangularDiagonalAdapter::new(&g);
    assert_eq!(a.get_neighbors((1, 1)).len(), 8);
    assert_eq!(a.get_neighbors((0, 0)).len(), 3);
    assert_eq!(a.movement_cost((1, 1), (2, 2)), 14);
    assert_eq!(a.movement_cost((1, 1), (1, 2)), 10);
}

#[test]
fn hex_neighbors_depend_on_row_parity() {
    let g = Grid::new(5, 5);
    let a = HexagonalAdapter::new(&g, true);
    let mut even = a.get_neighbors((2, 2));
    even.sort();
    let mut expect_even = vec![(2, 1), (3, 2), (3, 3), (2, 3), (1, 3), (1, 2)];
    expect_even.sort();
    assert_eq!(even, expect_even);
    let mut odd = a.get_neighbors((2, 1));
    odd.sort();
    let mut expect_odd = vec![(2, 0), (3, 0), (3, 1), (2, 2), (1, 1), (1, 0)];
    expect_odd.sort();
    assert_eq!(odd, expect_odd);
    // At the border some of the six fall off the map.
    assert_eq!(a.get_neighbors((0, 0)).len(), 3);
    assert_eq!(a.movement_cost((2, 2), (3, 3)), 10);
}

#[test]
fn heuristic_is_scaled_manhattan() {
    assert_eq!(heuristic((0, 0), (3, 4)), 70);
    assert_eq!(heuristic((5, 1), (2, 3)), 50);
    assert_eq!(heuristic((2, 2), (2, 2)), 0);
}

#[test]
fn a_star_same_start_and_goal() {
    let g = Grid::new(5, 5);
    assert_eq!(a_star_search(&g, (2, 3), (2, 3)), Some(vec![(2, 3)]));
    let a = HexagonalAdapter::new(&g, true);
    assert_eq!(a_star_with_adapter(&a, (1, 1), (1, 1)), Some(vec![(1, 1)]));
}

#[test]
fn a_star_rejects_invalid_ends() {
    let mut g = Grid::new(5, 5);
    g.set_cell(4, 4, CellType::Obstacle);
    assert_eq!(a_star_search(&g, (0, 0), (4, 4)), None);
    assert_eq!(a_star_search(&g, (4, 4), (0, 0)), None);
    assert_eq!(a_star_search(&g, (0, 0), (7, 0)), None);
}

#[test]
fn a_star_walled_off_goal_has_no_path() {
    let mut g = Grid::new(5, 5);
    for y in 0..5 {
        g.set_cell(2, y, CellType::Obstacle);
    }
    assert_eq!(a_star_search(&g, (0, 0), (4, 4)), None);
    let a = RectangularDiagonalAdapter::new(&g);
    assert_eq!(a_star_with_adapter(&a, (0, 0), (4, 4)), None);
}

#[test]
fn corridor_path_is_straight() {
    let mut g = Grid::new(60, 36);
    for x in 0..60 {
        g.set_cell(x, 6, CellType::Obstacle);
        g.set_cell(x, 8, CellType::Obstacle);
    }
    let p = a_star_search(&g, (1, 7), (58, 7)).expect("corridor is open");
    assert_eq!(p.len(), 58);
    for (i, c) in p.iter().enumerate() {
        assert_eq!(*c, (1 + i, 7));
    }
}

#[test]
fn diagonal_versus_cardinal_cost() {
    let g = Grid::new(11, 11);
    let four = RectangularCardinalAdapter::new(&g);
    let route_four = a_star_with_adapter(&four, (0, 0), (10, 10)).unwrap();
    assert_eq!(route_four.len() - 1, 20);
    assert_eq!(path_cost(&four, &route_four), 200);
    assert_adjacent_steps(&four, &route_four);
    let eight = RectangularDiagonalAdapter::new(&g);
    let route_eight = a_star_with_adapter(&eight, (0, 0), (10, 10)).unwrap();
    assert_eq!(route_eight.len() - 1, 10);
    assert_eq!(path_cost(&eight, &route_eight), 140);
    assert_adjacent_steps(&eight, &route_eight);
}

#[test]
fn hex_path_is_a_walk() {
    let mut g = Grid::new(8, 8);
    g.set_cell(3, 3, CellType::Obstacle);
    g.set_cell(3, 4, CellType::Obstacle);
    let a = HexagonalAdapter::new(&g, true);
    let p = a_star_with_adapter(&a, (0, 3), (7, 4)).unwrap();
    assert_eq!(p[0], (0, 3));
    assert_eq!(*p.last().unwrap(), (7, 4));
    assert_adjacent_steps(&a, &p);
    for c in &p {
        assert!(!g.is_obstacle(c.0, c.1));
    }
}

#[test]
fn pathfinding_algorithm_trait_delegates() {
    let g = CardinalSimulationFactory::new().create_grid(6, 4);
    let planner = CardinalSimulationFactory::new().create_pathfinder();
    let p = planner.find_path(&g, (0, 0), (5, 3)).unwrap();
    assert_eq!(p.len(), 9);
    assert_eq!(AStarCardinal.find_path(&g, (0, 0), (5, 3)), Some(p));
}

#[test]
fn grid_factories_build_empty_maps() {
    let g = RectangularGridFactory.create(4, 3);
    assert_eq!((g.width, g.height), (4, 3));
    assert!(!g.is_obstacle(3, 2));
    let h = RectangularGridFactory::new(2, 2);
    assert!(!h.is_obstacle(1, 1));
}

#[test]
fn cache_hits_misses_and_clear() {
    let mut m = PathManager::instance();
    let path = vec![(0, 0), (1, 0)];
    let hit_a = m.get_or_calculate((0, 0), (1, 0), || Some(path.clone()));
    assert_eq!(hit_a, Some(path.clone()));
    let hit_b = m.get_or_calculate((0, 0), (1, 0), || Some(vec![(9, 9)]));
    assert_eq!(hit_b, Some(path.clone()));
    let none = m.get_or_calculate((0, 0), (5, 5), || None);
    assert_eq!(none, None);
    // Failures are not stored: a later computation is asked again.
    let again = m.get_or_calculate((0, 0), (5, 5), || Some(vec![(0, 0), (5, 5)]));
    assert_eq!(again, Some(vec![(0, 0), (5, 5)]));
    let s = m.get_stats();
    assert_eq!((s.cache_hits, s.cache_misses, s.total_paths), (1, 3, 2));
    m.clear_cache();
    let after_clear = m.get_or_calculate((0, 0), (1, 0), || Some(vec![(7, 7)]));
    assert_eq!(after_clear, Some(vec![(7, 7)]));
    m.reset_stats();
    let s = m.get_stats();
    assert_eq!((s.cache_hits, s.cache_misses, s.total_paths), (0, 0, 0));
    assert_eq!(m.lookup((0, 0), (1, 0)), Some(vec![(7, 7)]));
}

#[test]
fn cleared_cache_reproduces_identical_paths() {
    let mut w = World::new_world(20, 12, TopologyTag::Cardinal8);
    w.set_cell(5, 5, CellType::Obstacle);
    let first = w.find_path((0, 0), (19, 11)).unwrap();
    w.clear_cache();
    let second = w.find_path((0, 0), (19, 11)).unwrap();
    assert_eq!(first, second);
    let third = w.find_path((0, 0), (19, 11)).unwrap();
    assert_eq!(first, third);
    assert_eq!(w.stats().cache_hits, 1);
}

#[test]
fn world_edits_invalidate_the_cache() {
    let mut w = World::new_world(5, 3, TopologyTag::Cardinal4);
    let p = w.find_path((0, 1), (4, 1)).unwrap();
    assert_eq!(p.len(), 5);
    for x in 0..5 {
        if x != 2 {
            continue;
        }
        for y in 0..3 {
            w.set_cell(x, y, CellType::Obstacle);
        }
    }
    assert_eq!(w.find_path((0, 1), (4, 1)), None);
    w.set_cell(2, 0, CellType::Empty);
    let q = w.find_path((0, 1), (4, 1)).unwrap();
    assert!(q.contains(&(2, 0)));
    w.set_topology(TopologyTag::Hex);
    assert_eq!(w.topology(), TopologyTag::Hex);
    let h = w.find_path((0, 1), (4, 1)).unwrap();
    assert!(h.contains(&(2, 0)));
    assert!(w.grid().is_obstacle(2, 1));
}

#[test]
fn pheromone_saturates_and_decays() {
    let mut f = PheromoneManager::instance();
    f.init(4, 4);
    for _ in 0..60 {
        f.update(16);
        f.deposit(1, 1, 16);
    }
    let snap = f.get_grid_snapshot();
    assert_eq!(snap[1 * 4 + 1], MAX_INTENSITY);
    assert!(f.is_blocked(1, 1));
    assert!(!f.is_blocked(2, 1));
    assert!(!f.blocks_move((1, 1), (1, 1)));
    assert!(f.blocks_move((0, 1), (1, 1)));
    // After the agent leaves: still blocked at 1.8 s, clear by 1.9 s.
    f.update(1800);
    assert!(f.is_blocked(1, 1));
    f.update(100);
    assert_eq!(f.get_grid_snapshot()[5], DANGER_THRESHOLD);
    assert!(!f.is_blocked(1, 1));
    f.update(5000);
    assert_eq!(f.get_grid_snapshot()[5], 0);
    assert!(!f.is_blocked(9, 9));
}

#[test]
fn pheromone_deposit_scales_with_time_and_clear() {
    let mut f = PheromoneManager::instance();
    f.init(2, 2);
    f.deposit(0, 1, 3);
    assert_eq!(f.get_grid_snapshot(), vec![0, 0, 300, 0]);
    f.update(10);
    assert_eq!(f.get_grid_snapshot(), vec![0, 0, 250, 0]);
    f.deposit(5, 5, 3);
    f.clear();
    assert_eq!(f.get_grid_snapshot(), vec![0, 0, 0, 0]);
}

#[test]
fn undo_restores_pre_tick_state_and_replay_reproduces() {
    let mut agents = vec![
        AgentMotion { id: 0, pos: (10i32, 10i32), fuel: 5 },
        AgentMotion { id: 1, pos: (50, 50), fuel: 7 },
    ];
    let before: Vec<(i32, i32, i64)> = agents.iter().map(|a| (a.pos.0, a.pos.1, a.fuel)).collect();
    let mut cm = CommandManager::new();
    let c0 = MoveCommand::new(0, (10, 10), (12, 10), 1);
    let c1 = MoveCommand::new(1, (50, 50), (48, 50), 1);
    cm.add_command(c0);
    cm.add_command(c1);
    cm.process_commands(&mut agents);
    let after: Vec<(i32, i32, i64)> = agents.iter().map(|a| (a.pos.0, a.pos.1, a.fuel)).collect();
    assert_eq!(after, vec![(12, 10, 4), (48, 50, 6)]);
    cm.undo_last(&mut agents);
    cm.undo_last(&mut agents);
    let undone: Vec<(i32, i32, i64)> = agents.iter().map(|a| (a.pos.0, a.pos.1, a.fuel)).collect();
    assert_eq!(undone, before);
    cm.undo_last(&mut agents);
    cm.add_command(c0);
    cm.add_command(c1);
    cm.process_commands(&mut agents);
    let replayed: Vec<(i32, i32, i64)> = agents.iter().map(|a| (a.pos.0, a.pos.1, a.fuel)).collect();
    assert_eq!(replayed, after);
    cm.clear();
    cm.undo_last(&mut agents);
    assert_eq!(agents[0].pos, (12, 10));
}

#[test]
fn stale_commands_are_skipped() {
    let mut agents = vec![AgentMotion { id: 3, pos: (0i32, 0i32), fuel: 5 }];
    let c = MoveCommand::new(0, (0, 0), (1, 1), 0);
    c.execute(&mut agents);
    assert_eq!(agents[0].pos, (0, 0));
    let missing = MoveCommand::new(4, (0, 0), (1, 1), 0);
    missing.execute(&mut agents);
    missing.undo(&mut agents);
    assert_eq!(agents[0].fuel, 5);
}

#[test]
fn agent_runs_out_of_fuel_once_and_freezes() {
    let mut a = AgentStatus::new(7, 3);
    assert_eq!(a.fuel, DEFAULT_FUEL);
    assert_eq!(a.get_next_step_target(), Some(0));
    a.fuel = 0;
    assert_eq!(a.update(false), Some(AgentEvent::OutOfFuel));
    assert_eq!(a.fuel, DEPLETED_FUEL);
    assert_eq!(a.get_next_step_target(), None);
    assert_eq!(a.update(true), None);
    assert_eq!(a.update(true), None);
    assert_eq!(a.current_waypoint, 0);
}

#[test]
fn agent_finishes_and_goes_silent() {
    let mut a = AgentStatus::new(1, 2);
    assert_eq!(a.update(false), None);
    assert_eq!(a.update(true), None);
    assert_eq!(a.get_next_step_target(), Some(1));
    assert_eq!(a.update(true), Some(AgentEvent::Finished));
    assert!(a.is_finished);
    assert!(!a.accepts_events());
    a.fuel = 0;
    assert_eq!(a.update(true), None);
    assert_eq!(a.get_next_step_target(), None);
}

#[test]
fn square_projection_round_trips() {
    for x in 0..60 {
        for y in 0..36 {
            let (px, py) = grid_to_screen_center((x, y));
            assert_eq!(screen_to_grid(px, py), (x, y));
        }
    }
    assert_eq!(grid_to_screen_center((2, 3)), (50, 70));
    assert_eq!(screen_to_grid(39, 40), (1, 2));
}

#[test]
fn lanes_pair_opposite_columns() {
    let t = lane_tasks(10, 2, 2);
    assert_eq!(t.len(), 8);
    assert_eq!(t[0], ((0, 0), (9, 0)));
    assert_eq!(t[1], ((1, 0), (8, 0)));
    assert_eq!(t[2], ((9, 0), (0, 0)));
    assert_eq!(t[3], ((8, 0), (1, 0)));
    assert_eq!(t[4], ((0, 1), (9, 1)));
    assert!(lane_tasks(10, 0, 2).is_empty());
}

#[test]
fn speed_boost_reacts_only_when_idle() {
    let mut s = SpeedBoostDecorator::new(200);
    assert_eq!(s.update(16), 200);
    s.react(AgentEvent::Finished, 300, 70);
    assert_eq!(s.percent, 200);
    s.react(AgentEvent::ProximityAlert(3), 300, 70);
    assert_eq!((s.remaining_ms, s.percent), (300, 70));
    s.react(AgentEvent::ProximityAlert(4), 500, 120);
    assert_eq!((s.remaining_ms, s.percent), (300, 70));
    assert_eq!(s.update(100), 70);
    assert_eq!(s.update(250), 200);
    assert_eq!(s.remaining_ms, 0);
}

#[test]
fn speed_boost_draws_within_bounds() {
    for _ in 0..50 {
        let mut s = SpeedBoostDecorator::new(200);
        s.notify(AgentEvent::ProximityAlert(1));
        assert!((BOOST_MIN_MS..=BOOST_MAX_MS).contains(&s.remaining_ms));
        assert!((BOOST_MIN_PERCENT..=BOOST_MAX_PERCENT).contains(&s.percent));
    }
}

#[test]
fn direction_jitter_arms_and_expires() {
    let mut d = DirectionDeviateDecorator::new();
    assert_eq!(d.active_offset(), None);
    d.react(AgentEvent::ProximityAlert(2), 150, (120, -80));
    assert_eq!(d.active_offset(), Some((120, -80)));
    d.update(100);
    assert_eq!(d.active_offset(), Some((120, -80)));
    d.update(100);
    assert_eq!(d.active_offset(), None);
    for _ in 0..50 {
        let mut e = DirectionDeviateDecorator::new();
        e.notify(AgentEvent::ProximityAlert(1));
        let (x, y) = e.active_offset().unwrap();
        assert!(x.abs() <= JITTER_MAX_OFFSET && y.abs() <= JITTER_MAX_OFFSET);
    }
}

#[test]
fn visual_alert_red_dominates_orange() {
    let mut v = VisualAlertDecorator::new();
    assert_eq!(v.get_detection_color(), AlertColor::Calm);
    v.notify(AgentEvent::ProximityAlert(1));
    assert_eq!(v.get_detection_color(), AlertColor::Orange);
    v.notify(AgentEvent::CollisionHit(1));
    assert_eq!(v.get_detection_color(), AlertColor::Red);
    v.notify(AgentEvent::ProximityAlert(2));
    assert_eq!(v.get_detection_color(), AlertColor::Red);
    v.update(499);
    assert_eq!(v.get_detection_color(), AlertColor::Red);
    v.update(1);
    assert_eq!(v.get_detection_color(), AlertColor::Calm);
    v.notify(AgentEvent::ProximityAlert(2));
    assert_eq!(v.get_detection_color(), AlertColor::Orange);
    v.update(100);
    assert_eq!(v.get_detection_color(), AlertColor::Calm);
}

#[test]
fn pointy_hex_neighbors_depend_on_column_parity() {
    let g = Grid::new(5, 5);
    let a = HexagonalAdapter::new(&g, false);
    let mut even = a.get_neighbors((2, 2));
    even.sort();
    let mut expect = vec![(3, 2), (2, 3), (1, 3), (1, 2), (1, 1), (2, 1)];
    expect.sort();
    assert_eq!(even, expect);
    let mut odd = a.get_neighbors((1, 2));
    odd.sort();
    let mut expect_odd = vec![(2, 2), (2, 3), (1, 3), (0, 2), (1, 1), (2, 1)];
    expect_odd.sort();
    assert_eq!(odd, expect_odd);
}

#[test]
fn picked_cell_must_be_open_and_on_the_map() {
    let mut g = Grid::new(3, 3);
    g.set_cell(1, 1, CellType::Obstacle);
    assert_eq!(g.pick_open_cell(0, 2), Some((0, 2)));
    assert_eq!(g.pick_open_cell(1, 1), None);
    assert_eq!(g.pick_open_cell(3, 0), None);
}

#[test]
fn route_planning_reports_each_error() {
    let mut w = World::new_world(6, 3, TopologyTag::Cardinal4);
    w.set_cell(5, 0, CellType::Obstacle);
    assert_eq!(w.plan_route((0, 0), (5, 0)), Err(SpawnError::InvalidMap));
    assert_eq!(w.plan_route((9, 0), (1, 1)), Err(SpawnError::InvalidMap));
    for y in 0..3 {
        w.set_cell(3, y, CellType::Obstacle);
    }
    assert_eq!(w.plan_route((0, 0), (5, 2)), Err(SpawnError::NoPath));
    let r = w.plan_route((0, 0), (2, 2)).unwrap();
    assert_eq!(r.len(), 5);
    assert_eq!(r[0], (0, 0));
    assert_eq!(*r.last().unwrap(), (2, 2));
}

#[test]
fn obstacle_density_extremes() {
    let mut g = Grid::new(6, 5);
    g.set_cell(2, 2, CellType::Obstacle);
    g.populate_obstacles(0);
    for x in 0..6 {
        for y in 0..5 {
            assert_eq!(g.is_obstacle(x, y), (x, y) == (2, 2));
        }
    }
    g.populate_obstacles(500);
    assert!(g.is_obstacle(2, 2));
    g.populate_obstacles(1001);
    for x in 0..6 {
        for y in 0..5 {
            assert!(g.is_obstacle(x, y));
        }
    }
}

#[test]
fn random_tasks_use_open_cells() {
    let mut g = Grid::new(8, 8);
    g.set_cell(3, 3, CellType::Obstacle);
    let tasks = generate_agent_tasks(&g, 25);
    assert!(tasks.len() <= 25);
    for (s, e) in &tasks {
        assert!(!g.is_obstacle(s.0, s.1));
        assert!(!g.is_obstacle(e.0, e.1));
    }
    let mut full = Grid::new(2, 1);
    full.set_cell(0, 0, CellType::Obstacle);
    full.set_cell(1, 0, CellType::Obstacle);
    assert!(generate_agent_tasks(&full, 5).is_empty());
}

#[test]
fn start_up_chain_builds_factory_and_map() {
    let ctx = init_system(7, 4);
    assert!(ctx.factory.is_some());
    let g = ctx.grid.unwrap();
    assert_eq!((g.width, g.height), (7, 4));
    let mut partial = InitContext { grid: None, factory: None, width: 3, height: 3 };
    GridInitHandler::new().handle(&mut partial);
    assert!(partial.grid.is_none());
    ConfigInitHandler::new().handle(&mut partial);
    GridInitHandler::new().handle(&mut partial);
    assert!(partial.grid.is_some());
}

#[test]
fn random_sampling_reaches_cells_past_the_first() {
    let mut g = Grid::new(4, 4);
    g.set_cell(0, 0, CellType::Obstacle);
    let found = (0..20).filter_map(|_| g.get_random_empty_cell()).count();
    assert!(found > 0);
    let mut seen_other_column = false;
    for _ in 0..200 {
        let mut s = DirectionDeviateDecorator::new();
        s.notify(AgentEvent::ProximityAlert(0));
        if let Some((x, _)) = s.active_offset() {
            if x != -JITTER_MAX_OFFSET {
                seen_other_column = true;
            }
        }
    }
    assert!(seen_other_column);
}

#[test]
fn hex_neighbors_come_in_offset_order() {
    let g = Grid::new(10, 10);
    let h = HexagonalAdapter::new(&g, true);
    assert_eq!(h.get_neighbors((4, 4)), vec![(4, 3), (5, 4), (5, 5), (4, 5), (3, 5), (3, 4)]);
    assert_eq!(h.get_neighbors((4, 5)), vec![(4, 4), (5, 4), (5, 5), (4, 6), (3, 5), (3, 4)]);
    let d = RectangularDiagonalAdapter::new(&g);
    assert_eq!(
        d.get_neighbors((1, 1)),
        vec![(1, 0), (1, 2), (0, 1), (2, 1), (0, 0), (2, 0), (0, 2), (2, 2)]
    );
    let c = RectangularCardinalAdapter::new(&g);
    assert_eq!(c.get_neighbors((0, 3)), vec![(0, 2), (0, 4), (1, 3)]);
}

#[test]
fn first_open_draw_skips_blocked_and_off_map_draws() {
    let mut g = Grid::new(3, 3);
    g.set_cell(1, 1, CellType::Obstacle);
    assert_eq!(g.first_open_draw(&vec![(1, 1), (3, 0), (2, 2), (0, 0)]), Some((2, 2)));
    assert_eq!(g.first_open_draw(&vec![(1, 1), (5, 5)]), None);
    assert_eq!(g.first_open_draw(&vec![]), None);
}

#[test]
fn density_draws_decide_each_tile() {
    let mut g = Grid::new(2, 2);
    g.set_cell(1, 1, CellType::Obstacle);
    g.apply_density(&vec![10, 600, 499, 900], 500);
    assert!(g.is_obstacle(0, 0));
    assert!(!g.is_obstacle(1, 0));
    assert!(g.is_obstacle(0, 1));
    assert!(g.is_obstacle(1, 1));
}

#[test]
fn a_star_route_has_no_repeated_cells() {
    let mut g = Grid::new(12, 12);
    for y in 0..10 {
        g.set_cell(5, y, CellType::Obstacle);
    }
    let a = RectangularDiagonalAdapter::new(&g);
    let p = a_star_with_adapter(&a, (0, 0), (11, 0)).unwrap();
    let mut sorted = p.clone();
    sorted.sort();
    sorted.dedup();
    assert_eq!(sorted.len(), p.len());
}

#[test]
fn task_samples_keep_only_complete_pairs() {
    let samples = vec![
        (Some((0, 0)), Some((2, 2))),
        (None, Some((1, 1))),
        (Some((1, 0)), None),
        (Some((2, 1)), Some((0, 2))),
    ];
    assert_eq!(tasks_from_samples(&samples), vec![((0, 0), (2, 2)), ((2, 1), (0, 2))]);
    assert!(tasks_from_samples(&vec![]).is_empty());
}

#[test]
fn sampler_finds_the_only_open_cell_eventually() {
    let mut g = Grid::new(3, 1);
    g.set_cell(0, 0, CellType::Obstacle);
    g.set_cell(1, 0, CellType::Obstacle);
    let hits = (0..50).filter(|_| g.get_random_empty_cell() == Some((2, 0))).count();
    assert!(hits > 0);
    let open = Grid::new(4, 4);
    assert!(open.get_random_empty_cell().is_some());
}
