use ped_nav::grid::make_navigable_matrix;
use ped_nav::pedestrian::Pedestrian;
use ped_nav::state::ModelState;
use ped_nav::state_components::{available_positions, make_paths, PathCache};
use ped_nav::utility_types::{Num2D, Sim2D};

fn sim(x: i64, y: i64) -> Sim2D {
    Sim2D { x, y }
}

#[test]
fn wandering_agent_moves_straight_and_never_stops() {
    let mut p = Pedestrian::new(7, sim(0, 0), sim(0, 0), None, 500);
    p.dir_x = 1000;
    p.dir_y = 0;
    let mut cache = PathCache::new();
    for tick in 1..=3i64 {
        p.step(&mut cache);
        assert_eq!(p.loc, sim(500 * tick, 0));
        assert!(!p.is_stopped());
        assert!(!p.arrived);
    }
}

#[test]
fn agent_facing_destination_steers_toward_it() {
    let mut p = Pedestrian::new(1, sim(0, 0), sim(0, 0), Some(sim(3000, 4000)), 1000);
    assert_eq!((p.dir_x, p.dir_y), (600, 800));
    let mut cache = PathCache::new();
    p.step(&mut cache);
    assert_eq!(p.loc, sim(600, 800));
    assert!(!p.is_stopped());
}

#[test]
fn agent_arrives_within_tolerance() {
    let mut p = Pedestrian::new(2, sim(2500, 0), sim(0, 0), Some(sim(3000, 0)), 800);
    let mut cache = PathCache::new();
    p.step(&mut cache);
    assert!(p.arrived);
    assert_eq!(p.loc, sim(2500, 0));
    assert!(p.is_stopped());
}

#[test]
fn exhausted_cache_falls_back_without_position_jump() {
    let mut p = Pedestrian::new(3, sim(0, 0), sim(0, 0), Some(sim(3000, 0)), 500);
    let mut cache = PathCache::new();
    cache.insert(3, vec![sim(1000, 0)]);
    let mut prev = p.loc;
    // first tick: steer toward the cached waypoint
    p.step(&mut cache);
    assert_eq!(p.loc, sim(500, 0));
    assert!((p.loc.x - prev.x).abs() <= 500 && (p.loc.y - prev.y).abs() <= 500);
    prev = p.loc;
    // second tick: the waypoint is reached, the cache is consumed, and the
    // agent resumes direct steering toward the original destination
    p.step(&mut cache);
    assert_eq!(cache.front(3), None);
    assert_eq!(p.loc, sim(1000, 0));
    assert!((p.loc.x - prev.x).abs() <= 500 && (p.loc.y - prev.y).abs() <= 500);
    prev = p.loc;
    // later ticks keep steering directly, still without a jump
    p.step(&mut cache);
    assert_eq!(p.loc, sim(1500, 0));
    assert!((p.loc.x - prev.x).abs() <= 500 && (p.loc.y - prev.y).abs() <= 500);
}

#[test]
fn path_cache_consumes_from_the_front() {
    let mut cache = PathCache::new();
    cache.insert(5, vec![sim(0, 0), sim(1000, 0)]);
    cache.insert(9, vec![sim(2000, 2000)]);
    assert_eq!(cache.front(5), Some(sim(0, 0)));
    cache.advance(5);
    assert_eq!(cache.front(5), Some(sim(1000, 0)));
    assert_eq!(cache.front(9), Some(sim(2000, 2000)));
    cache.advance(5);
    assert_eq!(cache.front(5), None);
    cache.advance(5);
    assert_eq!(cache.front(5), None);
    assert_eq!(cache.front(42), None);
}

#[test]
fn make_paths_builds_routes_and_reports_failures() {
    let mut objects = Vec::new();
    let ring = [(1, 1), (2, 1), (3, 1), (1, 2), (3, 2), (1, 3), (2, 3), (3, 3)];
    for (i, (x, y)) in ring.iter().enumerate() {
        objects.push(ped_nav::grid::Object::new(
            i as u32,
            ped_nav::grid::ObjectType::Obstacle,
            Num2D { x: *x, y: *y },
        ));
    }
    let grid = make_navigable_matrix(5, 5, &objects);
    let routed = Pedestrian::new(0, sim(0, 0), sim(0, 0), Some(sim(2000, 0)), 1000);
    let unrouted = Pedestrian::new(1, sim(0, 0), sim(0, 0), None, 1000);
    let walled_in = Pedestrian::new(2, sim(0, 0), sim(0, 0), Some(sim(2000, 2000)), 1000);
    let peds = vec![routed, unrouted, walled_in];
    let (cache, failed) = make_paths(&peds, &grid);
    assert_eq!(cache.front(0), Some(sim(0, 0)));
    assert_eq!(cache.front(1), None);
    assert_eq!(cache.front(2), None);
    assert_eq!(failed, vec![2]);
}

#[test]
fn make_paths_waypoints_follow_the_grid_route() {
    let grid = make_navigable_matrix(5, 5, &Vec::new());
    let ped = Pedestrian::new(4, sim(0, 0), sim(0, 0), Some(sim(2000, 0)), 1000);
    let peds = vec![ped];
    let (mut cache, failed) = make_paths(&peds, &grid);
    assert!(failed.is_empty());
    assert_eq!(cache.front(4), Some(sim(0, 0)));
    cache.advance(4);
    assert_eq!(cache.front(4), Some(sim(1000, 0)));
    cache.advance(4);
    assert_eq!(cache.front(4), None);
}

#[test]
fn model_state_drives_agents_and_counts_ticks() {
    let grid = make_navigable_matrix(5, 5, &Vec::new());
    let walker = Pedestrian::new(0, sim(0, 0), sim(0, 0), Some(sim(4000, 0)), 1000);
    let idler = Pedestrian::new(1, sim(3000, 3000), sim(0, 0), None, 1000);
    let mut state = ModelState::new(grid, vec![walker, idler]);
    assert_eq!(state.step, 0);
    assert_eq!(state.num_agents, 2);
    assert!(state.failed_paths.is_empty());
    assert!(state.get_obstacle(Num2D { x: 9, y: 9 }) == false);
    assert!(!state.agent_stopped(0));
    state.step_agent(0);
    state.step_agent(1);
    state.after_step();
    assert_eq!(state.step, 1);
    assert_eq!(state.peds[0].loc, sim(1000, 0));
    assert_eq!(state.peds[1].loc, sim(3000, 3000));
    state.reset();
    assert_eq!(state.step, 0);
}

#[test]
fn available_positions_lists_exactly_the_free_cells() {
    let objects = vec![ped_nav::grid::Object::new(
        0,
        ped_nav::grid::ObjectType::Obstacle,
        Num2D { x: 1, y: 0 },
    )];
    let grid = make_navigable_matrix(2, 2, &objects);
    let free = available_positions(&grid);
    assert_eq!(
        free,
        vec![Num2D { x: 0, y: 0 }, Num2D { x: 0, y: 1 }, Num2D { x: 1, y: 1 }]
    );
}
