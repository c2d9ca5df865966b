use tilewater::agents::{
    Agent, AgentAction, AgentDecider, AgentKind, Agents, AgentState, ResidentDecider,
    ResidentDraws, ResidentState, TrainDecider, TrainDraws, TrainState,
};
use tilewater::map::TileMap;
use tilewater::{Building, Coord2, Direction};

fn c(x: u64, y: u64) -> Coord2 {
    Coord2 { x, y }
}

/// A map with a paved column at x = 40 from y = 0 down to y = 9.
fn column_map() -> TileMap {
    let mut map = TileMap::new(c(80, 80));
    for y in 1..10 {
        map.pave(c(40, y));
    }
    map
}

fn fresh_resident(position: Coord2, home: Coord2) -> Agent {
    Agent::new(position, AgentDecider::Resident(ResidentDecider::new(home)))
}

fn no_draws() -> ResidentDraws {
    ResidentDraws {
        go_drinking: false,
        go_shopping: false,
        go_working: false,
        leave_shopping: false,
        take_job: false,
        leave_saloon: false,
        stop_working: false,
        factory_pick: 0,
    }
}

#[test]
fn subunit_position_accumulates_exactly_one_grain_per_tick() {
    let map = column_map();
    let mut agents = Agents::new(10);
    assert_eq!(agents.ticks_per_unit(), 10);
    // A resident on the road, moving in toward a home further south.
    let resident = fresh_resident(c(40, 0), c(40, 9));
    let id = resident.state.id;
    agents.insert(AgentKind::Resident, resident);

    // The first unit: the agent idles (its action starts as Idle), and the
    // unit's last tick triggers the decision to move south.
    for _ in 0..10 {
        agents.update(&map);
    }
    {
        let roster = agents.resident_agents();
        assert_eq!(roster.len(), 1);
        assert_eq!(roster[0].state.id, id);
        assert_eq!(roster[0].state.position, c(40, 0));
        assert!(matches!(roster[0].action, AgentAction::Move(Direction::South)));
    }

    // The second unit: exactly one grain of offset per tick, and on the
    // tenth tick the agent lands exactly on the next cell.
    for tick in 1..=10u64 {
        agents.update(&map);
        let positions = agents.agent_subunit_positions();
        assert_eq!(positions.len(), 1);
        assert_eq!(positions[0].kind, AgentKind::Resident);
        if tick < 10 {
            assert_eq!(positions[0].cell, c(40, 0));
            assert_eq!(positions[0].grains_x, 0);
            assert_eq!(positions[0].grains_y, tick as i64);
        } else {
            assert_eq!(positions[0].cell, c(40, 1));
            assert_eq!(positions[0].grains_x, 0);
            assert_eq!(positions[0].grains_y, 0);
        }
    }
}

#[test]
fn yielded_passenger_joins_the_registry_after_the_phase() {
    let map = column_map();
    let mut agents = Agents::new(1);
    // A passenger waiting at the platform's intake.
    let passenger = fresh_resident(c(40, 0), c(40, 9));
    let passenger_id = passenger.state.id;
    agents.queue_passenger(passenger);
    // A train whose head is already aligned with its platform.
    let train = Agent::new(c(43, 0), AgentDecider::Train(TrainDecider::new(c(42, 0))));
    let train_id = train.state.id;
    agents.insert(AgentKind::Train, train);
    assert_eq!(agents.resident_agents().len(), 0);

    // First unit: the train boards the waiting passenger and stops.
    agents.update(&map);
    assert_eq!(agents.resident_agents().len(), 0);
    // Second unit: the dwelling train releases the passenger, and the
    // passenger stands in the registry right after the phase.
    agents.update(&map);
    let roster = agents.resident_agents();
    assert_eq!(roster.len(), 1);
    assert_eq!(roster[0].state.id, passenger_id);
    assert_eq!(roster[0].state.position, c(40, 0));
    assert_eq!(agents.train_agents().len(), 1);
    assert_eq!(agents.train_agents()[0].state.id, train_id);
}

#[test]
fn train_dwells_releasing_one_passenger_per_decision_then_departs() {
    let map = column_map();
    let platform = c(42, 0);
    let mut decider = TrainDecider::new(platform);
    let state = AgentState { id: 1, position: c(43, 0) };
    let draws = TrainDraws { set_off: false };

    let mut intake = vec![
        fresh_resident(c(40, 0), c(40, 5)),
        fresh_resident(c(40, 0), c(40, 6)),
        fresh_resident(c(40, 0), c(40, 7)),
    ];

    // Aligned with three queued passengers: the train boards them all and
    // stops for its dwell window.
    let first = decider.decide_action_with(&state, &map, draws, &mut intake);
    assert!(matches!(first, AgentAction::Idle));
    assert!(intake.is_empty());
    assert!(matches!(decider.state, TrainState::AtPlatform(18)));

    // Exactly one passenger steps off per decision until none remain.
    let mut released = 0;
    for _ in 0..3 {
        let action = decider.decide_action_with(&state, &map, draws, &mut intake);
        match action {
            AgentAction::Yield(passengers, then) => {
                assert_eq!(passengers.len(), 1);
                assert!(matches!(*then, AgentAction::Idle));
                released += 1;
            }
            other => panic!("expected a released passenger, got {:?}", other),
        }
    }
    assert_eq!(released, 3);

    // The rest of the dwell window passes idly.
    for _ in 0..15 {
        let action = decider.decide_action_with(&state, &map, draws, &mut intake);
        assert!(matches!(action, AgentAction::Idle));
    }

    // Dwell exhausted and nobody left: the train departs east.
    let depart = decider.decide_action_with(&state, &map, draws, &mut intake);
    assert!(matches!(depart, AgentAction::Move(Direction::East)));
    assert!(matches!(decider.state, TrainState::Departing));
}

#[test]
fn departing_train_loops_back_past_the_east_bound() {
    let map = column_map();
    let mut decider = TrainDecider::new(c(42, 0));
    decider.state = TrainState::Departing;
    let draws = TrainDraws { set_off: true };
    let mut intake: Vec<Agent> = Vec::new();

    // Inside the map it just keeps rolling east.
    let rolling = decider.decide_action_with(
        &AgentState { id: 1, position: c(50, 0) },
        &map,
        draws,
        &mut intake,
    );
    assert!(matches!(rolling, AgentAction::Move(Direction::East)));

    // Past the east bound, the set-off roll sends it back to the origin.
    let looped = decider.decide_action_with(
        &AgentState { id: 1, position: c(80, 0) },
        &map,
        draws,
        &mut intake,
    );
    match looped {
        AgentAction::Jump(target, then) => {
            assert_eq!(target, c(0, 0));
            assert!(matches!(*then, AgentAction::Move(Direction::East)));
        }
        other => panic!("expected the loop-back jump, got {:?}", other),
    }
    assert!(matches!(decider.state, TrainState::Arriving));
}

#[test]
fn resident_walks_home_and_settles() {
    let map = column_map();
    let mut decider = ResidentDecider::new(c(40, 2));
    let away = AgentState { id: 1, position: c(40, 0) };
    let action = decider.decide_action_with(&away, &map, no_draws());
    assert!(matches!(action, AgentAction::Move(Direction::South)));
    assert_eq!(decider.state, ResidentState::MovingIn);

    let arrived = AgentState { id: 1, position: c(40, 2) };
    let action = decider.decide_action_with(&arrived, &map, no_draws());
    assert!(matches!(action, AgentAction::Idle));
    assert_eq!(decider.state, ResidentState::AtHome);
}

#[test]
fn resident_on_a_deleted_tile_dies() {
    let mut map = column_map();
    // The resident stands on (40, 5); the paving there is deleted out from
    // under it. Whatever its state and draws, the next decision kills it.
    assert!(map.delete(c(40, 5)).is_ok());
    let state = AgentState { id: 1, position: c(40, 5) };
    let mut settled = ResidentDecider::new(c(40, 2));
    settled.state = ResidentState::AtHome;
    let action = settled.decide_action_with(&state, &map, no_draws());
    assert!(matches!(action, AgentAction::Dead));
    let mut walking = ResidentDecider::new(c(40, 2));
    let action = walking.decide_action_with(&state, &map, no_draws());
    assert!(matches!(action, AgentAction::Dead));
}

#[test]
fn resident_dies_when_its_goal_is_unroutable() {
    let map = column_map();
    // A home nowhere near the road network, on an empty cell.
    let mut decider = ResidentDecider::new(c(79, 79));
    let state = AgentState { id: 1, position: c(40, 0) };
    let action = decider.decide_action_with(&state, &map, no_draws());
    assert!(matches!(action, AgentAction::Dead));
}

#[test]
fn resident_heads_for_the_nearest_saloon() {
    let mut map = column_map();
    assert!(map.build(c(42, 2), Building::Saloon));
    let mut decider = ResidentDecider::new(c(40, 0));
    decider.state = ResidentState::AtHome;
    let state = AgentState { id: 1, position: c(40, 0) };
    let mut draws = no_draws();
    draws.go_drinking = true;
    let action = decider.decide_action_with(&state, &map, draws);
    assert!(matches!(action, AgentAction::Move(Direction::South)));
    assert_eq!(decider.state, ResidentState::GoingToDrink(c(42, 2)));
}

#[test]
fn resident_with_no_saloon_anywhere_gives_up() {
    let map = column_map();
    let mut decider = ResidentDecider::new(c(40, 0));
    decider.state = ResidentState::AtHome;
    let state = AgentState { id: 1, position: c(40, 0) };
    let mut draws = no_draws();
    draws.go_drinking = true;
    let action = decider.decide_action_with(&state, &map, draws);
    assert!(matches!(action, AgentAction::Dead));
}

#[test]
fn drinker_takes_a_factory_job() {
    let mut map = column_map();
    assert!(map.build(c(42, 2), Building::Factory));
    let mut decider = ResidentDecider::new(c(40, 0));
    decider.state = ResidentState::Drinking;
    let state = AgentState { id: 1, position: c(40, 4) };
    let mut draws = no_draws();
    draws.take_job = true;
    let action = decider.decide_action_with(&state, &map, draws);
    assert!(matches!(action, AgentAction::Move(Direction::North)));
    assert_eq!(decider.work, Some(c(42, 2)));
    assert_eq!(decider.state, ResidentState::GoingToWork);
}

#[test]
fn random_decisions_stay_sound_over_many_draws() {
    let mut map = column_map();
    assert!(map.build(c(42, 2), Building::Factory));
    assert!(map.build(c(42, 5), Building::Saloon));
    assert!(map.build(c(42, 8), Building::GeneralStore));
    let mut decider = ResidentDecider::new(c(40, 0));
    decider.state = ResidentState::Drinking;
    let state = AgentState { id: 1, position: c(40, 4) };
    // Drive the random path often enough that the one-in-N draws all fire
    // at some point; every outcome must be a leaf action.
    for _ in 0..5000 {
        let action = decider.decide_action(&state, &map);
        assert!(matches!(
            action,
            AgentAction::Dead | AgentAction::Idle | AgentAction::Move(_)
        ));
        decider.state = ResidentState::Drinking;
    }
}

#[test]
fn insert_replaces_an_agent_with_the_same_identifier() {
    let mut agents = Agents::new(10);
    let mut first = fresh_resident(c(40, 0), c(40, 9));
    first.state.id = 7;
    let mut second = fresh_resident(c(40, 1), c(40, 9));
    second.state.id = 7;
    agents.insert(AgentKind::Resident, first);
    agents.insert(AgentKind::Resident, second);
    let roster = agents.resident_agents();
    assert_eq!(roster.len(), 1);
    assert_eq!(roster[0].state.position, c(40, 1));
}

#[test]
fn dead_agents_leave_at_the_next_sweep() {
    let map = column_map();
    let mut agents = Agents::new(1);
    // A resident whose home is unreachable: its first decision is death.
    let doomed = fresh_resident(c(40, 0), c(79, 79));
    agents.insert(AgentKind::Resident, doomed);
    agents.update(&map);
    assert_eq!(agents.resident_agents().len(), 1);
    agents.update(&map);
    assert_eq!(agents.resident_agents().len(), 0);
}

#[test]
fn fresh_agents_carry_distinct_identifiers() {
    let a = fresh_resident(c(40, 0), c(40, 9));
    let b = fresh_resident(c(40, 0), c(40, 9));
    assert_ne!(a.state.id, b.state.id);
}

#[test]
fn empty_train_eventually_sets_off_again() {
    let map = column_map();
    let mut decider = TrainDecider::new(c(42, 0));
    let past_bound = AgentState { id: 1, position: c(80, 0) };
    let mut intake: Vec<Agent> = Vec::new();
    // An empty train past the east bound sets off again about once in 68
    // decisions; over this many draws the roll all but surely fires.
    let mut set_off = false;
    for _ in 0..5000 {
        decider.state = TrainState::Departing;
        let action = decider.decide_action(&past_bound, &map, &mut intake);
        if matches!(action, AgentAction::Jump(_, _)) {
            set_off = true;
            break;
        }
        assert!(matches!(action, AgentAction::Idle));
    }
    assert!(set_off, "the one-in-N set-off roll never fired");
}
