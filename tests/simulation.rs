use world_simulator::agent::{Agent, AgentType, WANDER_TURN_LIMIT};
use world_simulator::geometry::{normalize, rotate_heading, step, Heading, HEADING_HALF};
use world_simulator::grid::SpatialGrid;
use world_simulator::sim::{GameState, Key, Simulation, GAME_SPEED};
use world_simulator::world::{World, WorldError};

fn world_with(width: i32, height: i32, agents: &[(i32, i32, AgentType)]) -> World {
    let mut w = World::new(width, height).unwrap();
    for &(x, y, t) in agents {
        w.add_agent(x, y, t).unwrap();
    }
    w
}

fn zero_turns(w: &World) -> Vec<i64> {
    vec![0; w.agents.len()]
}

fn dist2(ax: i32, ay: i32, bx: i32, by: i32) -> i64 {
    let dx = (bx - ax) as i64;
    let dy = (by - ay) as i64;
    dx * dx + dy * dy
}

struct Lcg(u64);

impl Lcg {
    fn turn(&mut self) -> i64 {
        self.0 = self.0.wrapping_mul(6364136223846793005).wrapping_add(1442695040888963407);
        let span = (2 * WANDER_TURN_LIMIT + 1) as u64;
        ((self.0 >> 33) % span) as i64 - WANDER_TURN_LIMIT
    }
}

#[test]
fn chase_scenario_closes_in_then_captures() {
    let mut w = world_with(160, 90, &[(10, 10, AgentType::TypeA), (12, 10, AgentType::TypeB)]);
    let turns = zero_turns(&w);
    w.update_with_turns(None, &turns);
    assert_eq!(w.agents.len(), 2);
    let p = w.agents[0];
    assert_eq!(p.agent_type, AgentType::TypeA);
    assert!(dist2(p.x, p.y, 12, 10) < dist2(10, 10, 12, 10));
    assert_eq!((p.x, p.y), (11, 10));

    let mut rng = Lcg(7);
    let mut ticks = 0;
    while w.agents.len() == 2 && ticks < 2_000_000 {
        let turns: Vec<i64> = (0..w.agents.len()).map(|_| rng.turn()).collect();
        w.update_with_turns(None, &turns);
        ticks += 1;
    }
    assert_eq!(w.agents.len(), 1);
    assert_eq!(w.agents[0].agent_type, AgentType::TypeA);
}

#[test]
fn capture_happens_on_the_prey_cell() {
    // The prey is adjacent and straight ahead: the predator lands on it.
    let mut w = world_with(160, 90, &[(11, 10, AgentType::TypeA), (12, 10, AgentType::TypeB)]);
    let turns = zero_turns(&w);
    w.update_with_turns(None, &turns);
    assert_eq!(w.agents.len(), 1);
    assert_eq!((w.agents[0].x, w.agents[0].y), (12, 10));
}

#[test]
fn positions_stay_in_bounds_over_many_ticks() {
    let mut sim = Simulation::new(0);
    assert_eq!(sim.world.agents.len(), 200);
    for _ in 0..300 {
        sim.world.update(None);
        for a in &sim.world.agents {
            assert!(0 <= a.x && a.x < 160);
            assert!(0 <= a.y && a.y < 90);
        }
    }
}

#[test]
fn wrap_around_right_and_bottom_edges() {
    let mut a = Agent::new(159, 89, AgentType::TypeA);
    a.move_forward(160, 90);
    assert_eq!((a.x, a.y), (0, 89));
    a.direction = Heading { dx: 0, dy: HEADING_HALF };
    a.move_forward(160, 90);
    assert_eq!((a.x, a.y), (0, 0));
    a.direction = Heading { dx: -HEADING_HALF, dy: -HEADING_HALF };
    a.move_forward(160, 90);
    assert_eq!((a.x, a.y), (159, 89));
}

#[test]
fn vision_boundary_distance_is_inclusive() {
    let a = Agent::new(10, 10, AgentType::TypeA);
    assert!(a.can_see(&Agent::new(70, 10, AgentType::TypeB)));
    assert!(!a.can_see(&Agent::new(71, 10, AgentType::TypeB)));
    // 36² + 48² == 60²
    let mut b = Agent::new(10, 10, AgentType::TypeA);
    b.direction = Heading { dx: 3 * 1000, dy: 4 * 1000 };
    assert!(b.can_see(&Agent::new(46, 58, AgentType::TypeB)));
}

#[test]
fn vision_cone_is_forward_and_narrow() {
    let a = Agent::new(10, 10, AgentType::TypeA);
    // atan(4/10) is about 21.8 degrees: inside the half cone of 22.5.
    assert!(a.can_see(&Agent::new(20, 14, AgentType::TypeB)));
    // atan(5/10) is about 26.6 degrees: outside.
    assert!(!a.can_see(&Agent::new(20, 15, AgentType::TypeB)));
    assert!(!a.can_see(&Agent::new(5, 10, AgentType::TypeB)));
    assert!(!a.can_see(&Agent::new(10, 20, AgentType::TypeB)));
    // the same cell counts as straight ahead
    assert!(a.can_see(&Agent::new(10, 10, AgentType::TypeB)));
}

#[test]
fn neighbor_query_finds_agents_within_range() {
    let mut g = SpatialGrid::new(60, 160, 90);
    g.insert(59, 0, 0);
    g.insert(119, 0, 1);
    g.insert(159, 89, 2);
    g.insert(0, 0, 3);
    let n = g.get_neighbors(59, 0);
    assert!(n.contains(&0));
    assert!(n.contains(&1));
    assert!(n.contains(&3));
    let far = g.get_neighbors(0, 0);
    assert!(far.contains(&3));
    assert!(far.contains(&1));
    assert!(!far.contains(&2));
    g.clear();
    assert!(g.get_neighbors(59, 0).is_empty());
}

#[test]
fn neighbor_query_lists_each_cell_once() {
    let mut g = SpatialGrid::new(60, 160, 90);
    g.insert(10, 10, 4);
    g.insert(11, 10, 5);
    g.insert(70, 10, 6);
    assert_eq!(g.get_neighbors(10, 10), vec![4, 5, 6]);
}

#[test]
fn two_predators_on_one_prey_remove_it_once() {
    let mut w = world_with(
        160,
        90,
        &[(11, 10, AgentType::TypeA), (12, 10, AgentType::TypeB), (13, 10, AgentType::TypeA)],
    );
    w.agents[2].direction = Heading { dx: -HEADING_HALF, dy: 0 };
    let turns = zero_turns(&w);
    w.update_with_turns(None, &turns);
    assert_eq!(w.agents.len(), 2);
    assert!(w.agents.iter().all(|a| a.agent_type == AgentType::TypeA));
    assert!(w.agents.iter().all(|a| (a.x, a.y) == (12, 10)));
}

#[test]
fn removal_keeps_the_right_survivors() {
    let mut w = world_with(
        160,
        90,
        &[
            (11, 10, AgentType::TypeA),
            (100, 50, AgentType::TypeB),
            (12, 10, AgentType::TypeB),
            (51, 70, AgentType::TypeA),
            (150, 80, AgentType::TypeB),
            (52, 70, AgentType::TypeB),
            (100, 20, AgentType::TypeB),
        ],
    );
    let turns = zero_turns(&w);
    w.update_with_turns(None, &turns);
    let got: Vec<(i32, i32, AgentType)> = w.agents.iter().map(|a| (a.x, a.y, a.agent_type)).collect();
    assert_eq!(
        got,
        vec![
            (12, 10, AgentType::TypeA),
            (101, 50, AgentType::TypeB),
            (52, 70, AgentType::TypeA),
            (151, 80, AgentType::TypeB),
            (101, 20, AgentType::TypeB),
        ]
    );
}

#[test]
fn lone_kind_only_wanders_one_cell() {
    let mut w = world_with(
        160,
        90,
        &[(0, 0, AgentType::TypeA), (80, 45, AgentType::TypeA), (159, 89, AgentType::TypeA)],
    );
    for _ in 0..50 {
        let before: Vec<(i32, i32)> = w.agents.iter().map(|a| (a.x, a.y)).collect();
        w.update(None);
        assert_eq!(w.agents.len(), 3);
        for (a, &(x, y)) in w.agents.iter().zip(before.iter()) {
            let dx = ((a.x - x) + 160) % 160;
            let dy = ((a.y - y) + 90) % 90;
            assert!(dx == 0 || dx == 1 || dx == 159);
            assert!(dy == 0 || dy == 1 || dy == 89);
        }
    }
}

#[test]
fn wander_with_zero_turn_goes_straight() {
    let mut w = world_with(160, 90, &[(5, 5, AgentType::TypeB)]);
    let turns = zero_turns(&w);
    w.update_with_turns(None, &turns);
    assert_eq!((w.agents[0].x, w.agents[0].y), (6, 5));
}

#[test]
fn prey_flees_a_visible_predator() {
    let mut w = world_with(160, 90, &[(20, 10, AgentType::TypeB), (15, 10, AgentType::TypeA)]);
    w.agents[0].direction = Heading { dx: -HEADING_HALF, dy: 0 };
    w.agents[1].direction = Heading { dx: 0, dy: HEADING_HALF };
    let turns = zero_turns(&w);
    w.update_with_turns(None, &turns);
    assert_eq!((w.agents[0].x, w.agents[0].y), (21, 10));
    assert!(w.agents[0].direction.dx > 0 && w.agents[0].direction.dy == 0);
}

#[test]
fn follow_mode_moves_everyone_towards_the_point() {
    let mut w = world_with(160, 90, &[(10, 10, AgentType::TypeA), (30, 10, AgentType::TypeB)]);
    let turns = zero_turns(&w);
    // rendered (400, 200) is grid (20, 10)
    w.update_with_turns(Some((400, 200)), &turns);
    assert_eq!((w.agents[0].x, w.agents[0].y), (11, 10));
    assert_eq!((w.agents[1].x, w.agents[1].y), (29, 10));
}

#[test]
fn world_rejects_bad_dimensions_and_positions() {
    assert!(matches!(World::new(0, 10), Err(WorldError::InvalidDimensions)));
    assert!(matches!(World::new(10, -1), Err(WorldError::InvalidDimensions)));
    let big = World::new(40000, 10).unwrap();
    assert_eq!((big.width, big.height, big.agents.len()), (40000, 10, 0));
    let huge = World::new(200_000_000, 1).unwrap();
    assert_eq!((huge.width, huge.height), (200_000_000, 1));
    let mut w = World::new(160, 90).unwrap();
    assert_eq!(w.add_agent(160, 0, AgentType::TypeA), Err(WorldError::OutOfBounds));
    assert_eq!(w.add_agent(0, -1, AgentType::TypeA), Err(WorldError::OutOfBounds));
    assert_eq!(w.add_agent(159, 89, AgentType::TypeB), Ok(()));
    assert_eq!(w.agents.len(), 1);
}

#[test]
fn steps_round_the_heading() {
    assert_eq!(step(Heading { dx: 1, dy: 0 }), (1, 0));
    assert_eq!(step(Heading { dx: 1, dy: 1 }), (1, 1));
    assert_eq!(step(Heading { dx: 2, dy: 1 }), (1, 0));
    assert_eq!(step(Heading { dx: 1, dy: 2 }), (0, 1));
    assert_eq!(step(Heading { dx: -3, dy: -3 }), (-1, -1));
    assert_eq!(step(Heading { dx: 0, dy: -5 }), (0, -1));
}

#[test]
fn normalize_scales_to_stored_precision() {
    assert_eq!(normalize(1, 0), Heading { dx: 524288, dy: 0 });
    assert_eq!(normalize(3, 4), Heading { dx: 393216, dy: 524288 });
    assert_eq!(normalize(1 << 40, 0), Heading { dx: 1048576, dy: 0 });
    assert_eq!(normalize(-3, 0), Heading { dx: -786432, dy: 0 });
}

#[test]
fn rotation_turns_by_the_vector() {
    let east = Heading { dx: HEADING_HALF, dy: 0 };
    assert_eq!(rotate_heading(east, 0, 1), Heading { dx: 0, dy: HEADING_HALF });
    assert_eq!(rotate_heading(east, -1, 0), Heading { dx: -HEADING_HALF, dy: 0 });
    let mut a = Agent::new(0, 0, AgentType::TypeA);
    a.rotate(1, 1);
    assert_eq!(a.direction, Heading { dx: HEADING_HALF, dy: HEADING_HALF });
}

#[test]
fn far_rendered_targets_steer_without_overflow() {
    let mut w = world_with(200_000_000, 3, &[(10, 1, AgentType::TypeA), (199_999_990, 1, AgentType::TypeB)]);
    let turns = zero_turns(&w);
    w.update_with_turns(Some((i32::MIN, 20)), &turns);
    assert_eq!((w.agents[0].x, w.agents[0].y), (9, 1));
    assert_eq!((w.agents[1].x, w.agents[1].y), (199_999_989, 1));
    let mut a = Agent::new(199_999_999, 0, AgentType::TypeB);
    a.move_away_from(0, 0, 200_000_000, 3);
    assert_eq!((a.x, a.y), (0, 0));
}

#[test]
fn move_towards_and_away_from_a_point() {
    let mut a = Agent::new(10, 10, AgentType::TypeA);
    a.move_towards(200, 400, 160, 90);
    assert_eq!((a.x, a.y), (10, 11));
    let mut b = Agent::new(10, 10, AgentType::TypeB);
    b.move_away_from(200, 400, 160, 90);
    assert_eq!((b.x, b.y), (10, 9));
}

#[test]
fn nearest_visible_prefers_closer_target() {
    let mut w = world_with(
        160,
        90,
        &[(10, 10, AgentType::TypeA), (20, 10, AgentType::TypeB), (14, 11, AgentType::TypeB), (12, 10, AgentType::TypeA)],
    );
    w.rebuild_index();
    let me = w.agents[0];
    assert_eq!(me.find_nearest_visible_agent(&w.agents, AgentType::TypeB, &w.grid), Some(2));
    // A query for its own kind finds the agent itself, at distance zero.
    assert_eq!(me.find_nearest_visible_agent(&w.agents, AgentType::TypeA, &w.grid), Some(0));
    let lone = world_with(160, 90, &[(10, 10, AgentType::TypeA)]);
    let mut lone = lone;
    lone.rebuild_index();
    assert_eq!(lone.agents[0].find_nearest_visible_agent(&lone.agents, AgentType::TypeB, &lone.grid), None);
}

#[test]
fn default_simulation_alternates_kinds() {
    let sim = Simulation::new(0);
    let preds = sim.world.agents.iter().filter(|a| a.agent_type == AgentType::TypeA).count();
    assert_eq!(preds, 100);
    for a in &sim.world.agents {
        assert_eq!(a.health, 100);
        assert_eq!(a.direction, Heading { dx: HEADING_HALF, dy: 0 });
    }
}

#[test]
fn scatter_places_agents_inside_and_apart() {
    let mut w = World::new(160, 90).unwrap();
    w.scatter(50);
    assert_eq!(w.agents.len(), 100);
    for (i, a) in w.agents.iter().enumerate() {
        assert!(0 <= a.x && a.x < 160 && 0 <= a.y && a.y < 90);
        let want = if i % 2 == 0 { AgentType::TypeA } else { AgentType::TypeB };
        assert_eq!(a.agent_type, want);
    }
    let first = (w.agents[0].x, w.agents[0].y);
    assert!(w.agents.iter().any(|a| (a.x, a.y) != first));
}

#[test]
fn random_wander_turns_differ() {
    let mut headings = Vec::new();
    for _ in 0..20 {
        let mut a = Agent::new(50, 50, AgentType::TypeA);
        a.move_randomly(160, 90);
        headings.push(a.direction);
    }
    assert!(headings.iter().any(|h| *h != headings[0]));
}

#[test]
fn driver_keys_and_pause() {
    let mut sim = Simulation::new(1000);
    assert_eq!(sim.state, GameState::Running);
    assert!(!sim.key_down(Key::Q));
    assert!(!sim.key_down(Key::F));
    assert!(!sim.follow_mouse);
    assert!(!sim.key_down(Key::P));
    assert_eq!(sim.state, GameState::Paused);
    assert!(!sim.key_down(Key::F));
    assert!(sim.follow_mouse);
    assert!(sim.key_down(Key::Q));
    assert!(!sim.key_down(Key::R));
    assert_eq!(sim.state, GameState::Running);
    sim.toggle_pause();
    assert_eq!(sim.state, GameState::Paused);
    sim.mouse_motion(30, 40);
    assert_eq!(sim.mouse_position, (30, 40));
}

#[test]
fn driver_ticks_at_the_interval() {
    let mut sim = Simulation::new(1000);
    assert!(!sim.update(1000 + GAME_SPEED - 1));
    assert_eq!(sim.last_update_ms, 1000);
    assert!(sim.update(1000 + GAME_SPEED));
    assert_eq!(sim.last_update_ms, 1000 + GAME_SPEED);
    sim.toggle_pause();
    assert!(!sim.update(2000));
    assert_eq!(sim.last_update_ms, 2000);
}
