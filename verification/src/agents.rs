//! Agents, their decision state machines, and the tick scheduler.
//!
//! Each agent carries a committed grid cell and a sub-cell offset measured
//! in grains of `1 / ticks_per_unit` of a cell, so motion is exact integer
//! arithmetic: an agent moving east accumulates one grain per tick and
//! lands exactly on the next cell when the unit's last tick snaps it.
//!
//! Deciders draw their probabilistic choices as explicit one-in-N draws
//! (a draw fires with probability `1 / N`); every decision a draw steers
//! is verified for every value the draw could take, and the
//! `decide_action_with` entry points let a harness substitute any fixed
//! draws.

use vstd::prelude::*;

use crate::entropy::{fresh_agent_id, rand_below};
use crate::map::TileMap;
use crate::routing::{closest_building, direction_of_route, valid_route, RouteDirection};
use crate::{spec_direction_between, spec_direction_offset, Building, Coord2, Direction};

verus! {

/// The number of decisions a train dwells at its platform once stopped.
pub const DWELL_DECISIONS: u64 = 18;

/// The largest tick resolution the scheduler accepts: a machine limit,
/// not a design one. A sub-cell offset counts ticks of the current unit
/// in a signed 64-bit grain, so the resolution must leave room for one
/// more grain below the signed top; anything up to `2^62` does.
pub const MAX_TICKS_PER_UNIT: u64 = 0x4000000000000000;

/// The kinds of agent the registry partitions by.
#[derive(Copy, Clone, Debug, PartialEq, Eq, Structural, Hash)]
pub enum AgentKind {
    Resident,
    Train,
}

/// What an agent does until its next decision. `Dead`, `Idle` and `Move`
/// are leaves the move phase applies directly; `Yield` and `Jump` are
/// resolved entirely during the decide phase.
#[derive(Debug)]
pub enum AgentAction {
    /// The agent is dead and leaves the registry at the next sweep.
    Dead,
    /// No large-scale movement this unit.
    Idle,
    /// Move one cell in this direction over the course of the unit.
    Move(Direction),
    /// Release these agents into the registry, then continue as the
    /// wrapped action says.
    Yield(Vec<Agent>, Box<AgentAction>),
    /// Teleport to this cell, then continue as the wrapped action says.
    Jump(Coord2, Box<AgentAction>),
}

/// A leaf action: one the move phase applies directly.
pub open spec fn is_leaf(a: AgentAction) -> bool {
    a is Dead || a is Idle || a is Move
}

/// The leaf an action unwinds to.
pub open spec fn leaf_of(a: AgentAction) -> AgentAction
    decreases a,
{
    match a {
        AgentAction::Yield(_, then) => leaf_of(*then),
        AgentAction::Jump(_, then) => leaf_of(*then),
        _ => a,
    }
}

/// Every agent an action releases while unwinding, in release order.
pub open spec fn yielded_agents(a: AgentAction) -> Seq<Agent>
    decreases a,
{
    match a {
        AgentAction::Yield(agents, then) => agents@ + yielded_agents(*then),
        AgentAction::Jump(_, then) => yielded_agents(*then),
        _ => Seq::empty(),
    }
}

/// Where an agent at `pos` stands once an action's jumps are applied.
pub open spec fn jump_target(a: AgentAction, pos: Coord2) -> Coord2
    decreases a,
{
    match a {
        AgentAction::Yield(_, then) => jump_target(*then, pos),
        AgentAction::Jump(p, then) => jump_target(*then, p),
        _ => pos,
    }
}

/// The leaf of any action is a leaf.
pub proof fn lemma_leaf_of_is_leaf(a: AgentAction)
    ensures
        is_leaf(leaf_of(a)),
    decreases a,
{
    match a {
        AgentAction::Yield(_, then) => lemma_leaf_of_is_leaf(*then),
        AgentAction::Jump(_, then) => lemma_leaf_of_is_leaf(*then),
        _ => {},
    }
}

/// The shared, externally visible part of an agent: its identifier and
/// committed grid cell.
#[derive(Copy, Clone, Debug, PartialEq, Eq, Structural)]
pub struct AgentState {
    pub id: u128,
    pub position: Coord2,
}

/// A live agent: identity and cell, the action pending resolution, the
/// sub-cell offset in grains of `1 / ticks_per_unit` of a cell, and the
/// behaviour that decides for it.
#[derive(Debug)]
pub struct Agent {
    pub state: AgentState,
    pub action: AgentAction,
    pub subunit_x: i64,
    pub subunit_y: i64,
    pub decider: AgentDecider,
}

/// The behaviours an agent can carry.
#[derive(Debug)]
pub enum AgentDecider {
    Resident(ResidentDecider),
    Train(TrainDecider),
}

/// The states of a resident's life between decisions.
#[derive(Copy, Clone, Debug, PartialEq, Eq, Structural, Hash)]
pub enum ResidentState {
    MovingIn,
    GoingHome,
    AtHome,
    GoingToShop(Coord2),
    Shopping,
    GoingToDrink(Coord2),
    Drinking,
    GoingToWork,
    Working,
}

/// A resident's behaviour: its home, its workplace once it has one, and
/// its current state.
#[derive(Copy, Clone, Debug)]
pub struct ResidentDecider {
    pub home: Coord2,
    pub work: Option<Coord2>,
    pub state: ResidentState,
}

/// A resident heading to or at work always knows its workplace.
pub open spec fn resident_wf(d: ResidentDecider) -> bool {
    (d.state is GoingToWork || d.state is Working) ==> d.work is Some
}

/// The states of the train's loop.
#[derive(Copy, Clone, Debug, PartialEq, Eq, Structural, Hash)]
pub enum TrainState {
    Arriving,
    AtPlatform(u64),
    Departing,
}

/// The train's behaviour: its platform cell, its loop state, and the
/// passengers it carries.
#[derive(Debug)]
pub struct TrainDecider {
    pub platform: Coord2,
    pub state: TrainState,
    pub passengers: Vec<Agent>,
}

/// An agent fit to ride the train (or wait in its intake): a freshly made
/// resident with a leaf action and no accumulated sub-cell offset.
pub open spec fn passenger_wf(a: Agent) -> bool {
    &&& is_leaf(a.action)
    &&& a.subunit_x == 0
    &&& a.subunit_y == 0
    &&& match a.decider {
        AgentDecider::Resident(rd) => resident_wf(rd),
        AgentDecider::Train(_) => false,
    }
}

/// A behaviour whose own bookkeeping is in order.
pub open spec fn decider_wf(d: AgentDecider) -> bool {
    match d {
        AgentDecider::Resident(rd) => resident_wf(rd),
        AgentDecider::Train(t) => forall|i: int|
            0 <= i < t.passengers@.len() ==> passenger_wf(#[trigger] t.passengers@[i]),
    }
}

/// An agent the scheduler can hold after `ticks` ticks of the current
/// unit: a leaf action, a sound behaviour, and a sub-cell offset that is
/// zero unless the agent is moving, and then at most `ticks` grains.
pub open spec fn agent_wf(a: Agent, ticks: u64) -> bool {
    &&& is_leaf(a.action)
    &&& decider_wf(a.decider)
    &&& a.action is Move ==> -(ticks as int) <= a.subunit_x <= ticks && -(ticks as int)
        <= a.subunit_y <= ticks
    &&& !(a.action is Move) ==> a.subunit_x == 0 && a.subunit_y == 0
}

impl Agent {
    /// A fresh agent at `position`, idle, exactly on its cell, with a
    /// random identifier. (Relying on the identifier being distinct from
    /// every other is probabilistic; the registry replaces on a clash.)
    pub fn new(position: Coord2, decider: AgentDecider) -> (r: Agent)
        requires
            decider_wf(decider),
        ensures
            r.state.position == position,
            r.action is Idle,
            r.subunit_x == 0,
            r.subunit_y == 0,
            r.decider == decider,
            agent_wf(r, 0),
            fresh_resident_is_passenger(r, decider),
    {
        Agent {
            state: AgentState { id: fresh_agent_id(), position },
            action: AgentAction::Idle,
            subunit_x: 0,
            subunit_y: 0,
            decider,
        }
    }
}

/// A fresh agent with a resident behaviour is fit to be a passenger.
pub open spec fn fresh_resident_is_passenger(r: Agent, decider: AgentDecider) -> bool {
    decider is Resident ==> passenger_wf(r)
}

/// Unwinds an action to its leaf: every agent it yields lands in
/// `buffer`, every jump moves `pos`, and the leaf comes back. The unwind
/// provably terminates, since every wrapper is a step down the action's
/// structure.
fn resolve_action(pos: Coord2, action: AgentAction, buffer: &mut Vec<Agent>) -> (r: (
    Coord2,
    AgentAction,
))
    ensures
        r.1 == leaf_of(action),
        is_leaf(r.1),
        r.0 == jump_target(action, pos),
        final(buffer)@ == old(buffer)@ + yielded_agents(action),
    decreases action,
{
    proof {
        lemma_leaf_of_is_leaf(action);
    }
    match action {
        AgentAction::Yield(mut agents, then) => {
            let ghost agents_v = agents@;
            buffer.append(&mut agents);
            let r = resolve_action(pos, *then, buffer);
            proof {
                assert((old(buffer)@ + agents_v) + yielded_agents(*then) =~= old(buffer)@ + (
                agents_v + yielded_agents(*then)));
            }
            r
        },
        AgentAction::Jump(p, then) => resolve_action(p, *then, buffer),
        other => {
            proof {
                assert(old(buffer)@ + Seq::<Agent>::empty() =~= old(buffer)@);
            }
            (pos, other)
        },
    }
}

/// What a routing query from `from` to `to` may answer, as far as the
/// router promises: `Complete` exactly on coinciding cells, `NotRouteable`
/// guaranteed when the goal cell is empty, and any direction returned is
/// the first step of some valid route.
pub open spec fn route_dir_possible(m: TileMap, from: Coord2, to: Coord2, rd: RouteDirection) -> bool {
    &&& (rd is Complete <==> from == to)
    &&& (from != to && !m.grid().contains_key(to) ==> rd is NotRouteable)
    &&& (rd matches RouteDirection::Direction(d) ==> exists|p: Seq<Coord2>|
        valid_route(m, p, from, to) && spec_direction_between(from, p[1]) == Some(d))
}

/// What a closest-building query may answer: any coordinate returned is an
/// indexed building of the kind, reachable from `from`; standing on a
/// listed building answers `None`.
pub open spec fn closest_possible(m: TileMap, from: Coord2, b: Building, r: Option<Coord2>) -> bool {
    &&& (r matches Some(c) ==> m.building_seq(b).contains(c) && exists|p: Seq<Coord2>|
        valid_route(m, p, from, c))
    &&& (m.building_seq(b).contains(from) ==> r is None)
}

/// The outcome of walking toward `to` from a decider already in state
/// `d_set`: death when no route exists, the arrival state and action when
/// already there, and otherwise one step along some valid route.
pub open spec fn goes_to(
    m: TileMap,
    d_set: ResidentDecider,
    pos: Coord2,
    to: Coord2,
    then_state: ResidentState,
    then_action: AgentAction,
    d1: ResidentDecider,
    action: AgentAction,
) -> bool {
    exists|rd: RouteDirection|
        #[trigger] route_dir_possible(m, pos, to, rd) && match rd {
            RouteDirection::NotRouteable => d1 == d_set && action is Dead,
            RouteDirection::Complete => d1 == (ResidentDecider {
                home: d_set.home,
                work: d_set.work,
                state: then_state,
            }) && action == then_action,
            RouteDirection::Direction(dir) => d1 == d_set && action == AgentAction::Move(dir),
        }
}

/// The outcome of turning for home: the decider first records that it is
/// going home, then walks toward its home cell.
pub open spec fn goes_home(
    m: TileMap,
    d0: ResidentDecider,
    pos: Coord2,
    d1: ResidentDecider,
    action: AgentAction,
) -> bool {
    goes_to(
        m,
        ResidentDecider { home: d0.home, work: d0.work, state: ResidentState::GoingHome },
        pos,
        d0.home,
        ResidentState::AtHome,
        AgentAction::Idle,
        d1,
        action,
    )
}

/// One decision's worth of random draws for a resident. Each boolean
/// fires with its own one-in-N probability; `factory_pick` indexes the
/// factory list uniformly when a new job is taken.
#[derive(Copy, Clone, Debug)]
pub struct ResidentDraws {
    pub go_drinking: bool,
    pub go_shopping: bool,
    pub go_working: bool,
    pub leave_shopping: bool,
    pub take_job: bool,
    pub leave_saloon: bool,
    pub stop_working: bool,
    pub factory_pick: u64,
}

/// The resident state machine: whether deciding from `d0` at `pos`, with
/// the draws `dr`, may yield the new behaviour `d1` and the action
/// `action`. Routing outcomes appear as constrained oracles, so the
/// relation holds for every answer the router could give. The defensive
/// rule comes first: a resident whose own tile has been deleted out from
/// under it dies, whatever its state, rather than keep routing from a
/// cell that no longer exists.
pub open spec fn resident_decide_rel(
    m: TileMap,
    d0: ResidentDecider,
    pos: Coord2,
    dr: ResidentDraws,
    d1: ResidentDecider,
    action: AgentAction,
) -> bool {
    if !m.grid().contains_key(pos) {
        d1 == d0 && action is Dead
    } else {
        resident_decide_rel_on_tile(m, d0, pos, dr, d1, action)
    }
}

/// The resident state machine proper, for a resident whose tile exists.
pub open spec fn resident_decide_rel_on_tile(
    m: TileMap,
    d0: ResidentDecider,
    pos: Coord2,
    dr: ResidentDraws,
    d1: ResidentDecider,
    action: AgentAction,
) -> bool {
    match d0.state {
        ResidentState::MovingIn | ResidentState::GoingHome => goes_to(
            m,
            d0,
            pos,
            d0.home,
            ResidentState::AtHome,
            AgentAction::Idle,
            d1,
            action,
        ),
        ResidentState::AtHome => {
            if dr.go_working && d0.work is Some {
                goes_to(
                    m,
                    ResidentDecider {
                        home: d0.home,
                        work: d0.work,
                        state: ResidentState::GoingToWork,
                    },
                    pos,
                    d0.work.unwrap(),
                    ResidentState::Working,
                    AgentAction::Idle,
                    d1,
                    action,
                )
            } else if dr.go_drinking {
                exists|closest: Option<Coord2>|
                    #[trigger] closest_possible(m, pos, Building::Saloon, closest) && match closest {
                        None => d1 == d0 && action is Dead,
                        Some(c) => goes_to(
                            m,
                            ResidentDecider {
                                home: d0.home,
                                work: d0.work,
                                state: ResidentState::GoingToDrink(c),
                            },
                            pos,
                            c,
                            ResidentState::Drinking,
                            AgentAction::Idle,
                            d1,
                            action,
                        ),
                    }
            } else if dr.go_shopping {
                exists|closest: Option<Coord2>|
                    #[trigger] closest_possible(m, pos, Building::GeneralStore, closest)
                        && match closest {
                        None => d1 == d0 && action is Dead,
                        Some(c) => goes_to(
                            m,
                            ResidentDecider {
                                home: d0.home,
                                work: d0.work,
                                state: ResidentState::GoingToShop(c),
                            },
                            pos,
                            c,
                            ResidentState::Shopping,
                            AgentAction::Idle,
                            d1,
                            action,
                        ),
                    }
            } else {
                d1 == d0 && action is Idle
            }
        },
        ResidentState::GoingToShop(shop_pos) => goes_to(
            m,
            d0,
            pos,
            shop_pos,
            ResidentState::Shopping,
            AgentAction::Idle,
            d1,
            action,
        ),
        ResidentState::Shopping => {
            if dr.leave_shopping {
                goes_home(m, d0, pos, d1, action)
            } else {
                d1 == d0 && action is Idle
            }
        },
        ResidentState::GoingToDrink(saloon_pos) => goes_to(
            m,
            d0,
            pos,
            saloon_pos,
            ResidentState::Drinking,
            AgentAction::Idle,
            d1,
            action,
        ),
        ResidentState::Drinking => {
            if dr.take_job && m.building_seq(Building::Factory).len() > 0 {
                let work = m.building_seq(Building::Factory)[dr.factory_pick as int];
                goes_to(
                    m,
                    ResidentDecider {
                        home: d0.home,
                        work: Some(work),
                        state: ResidentState::GoingToWork,
                    },
                    pos,
                    work,
                    ResidentState::Working,
                    AgentAction::Idle,
                    d1,
                    action,
                )
            } else if dr.leave_saloon {
                goes_home(m, d0, pos, d1, action)
            } else {
                d1 == d0 && action is Idle
            }
        },
        ResidentState::GoingToWork => goes_to(
            m,
            d0,
            pos,
            d0.work.unwrap(),
            ResidentState::Working,
            AgentAction::Idle,
            d1,
            action,
        ),
        ResidentState::Working => {
            if dr.stop_working {
                goes_home(m, d0, pos, d1, action)
            } else {
                d1 == d0 && action is Idle
            }
        },
    }
}

/// The draw constraint a resident decision needs: a factory pick that
/// indexes the factory list whenever that list is not empty.
pub open spec fn resident_draws_ok(m: TileMap, dr: ResidentDraws) -> bool {
    m.building_seq(Building::Factory).len() == 0 || dr.factory_pick < m.building_seq(
        Building::Factory,
    ).len()
}

impl ResidentDecider {
    /// A resident who has just moved in, with its home and no job yet.
    pub fn new(home: Coord2) -> (r: ResidentDecider)
        ensures
            r.home == home,
            r.work is None,
            r.state == ResidentState::MovingIn,
            resident_wf(r),
    {
        ResidentDecider { home, work: None, state: ResidentState::MovingIn }
    }

    /// Walks toward `to`: dead when unroutable, switches to `then_state`
    /// with `then_action` on arrival, and otherwise steps along a route.
    fn going_to(
        &mut self,
        agent: &AgentState,
        map: &TileMap,
        to: Coord2,
        then_state: ResidentState,
        then_action: AgentAction,
    ) -> (r: AgentAction)
        ensures
            goes_to(
                *map,
                *old(self),
                agent.position,
                to,
                then_state,
                then_action,
                *final(self),
                r,
            ),
            final(self).home == old(self).home,
            final(self).work == old(self).work,
            final(self).state == old(self).state || final(self).state == then_state,
            is_leaf(then_action) ==> is_leaf(r),
    {
        let rd = direction_of_route(map, agent.position, to);
        let ghost rd_g = rd;
        let result = match rd {
            RouteDirection::NotRouteable => AgentAction::Dead,
            RouteDirection::Complete => {
                self.state = then_state;
                then_action
            },
            RouteDirection::Direction(direction) => AgentAction::Move(direction),
        };
        proof {
            assert(route_dir_possible(*map, agent.position, to, rd_g));
        }
        result
    }

    /// Turns for home: records the state and walks toward the home cell.
    fn go_home(&mut self, agent: &AgentState, map: &TileMap) -> (r: AgentAction)
        ensures
            goes_home(*map, *old(self), agent.position, *final(self), r),
            final(self).home == old(self).home,
            final(self).work == old(self).work,
            is_leaf(r),
    {
        let home = self.home;
        self.state = ResidentState::GoingHome;
        self.going_to(agent, map, home, ResidentState::AtHome, AgentAction::Idle)
    }

    /// One decision, with the draws fixed by the caller: the harness entry
    /// point that makes every probabilistic transition testable.
    pub fn decide_action_with(
        &mut self,
        agent: &AgentState,
        map: &TileMap,
        dr: ResidentDraws,
    ) -> (r: AgentAction)
        requires
            resident_wf(*old(self)),
            resident_draws_ok(*map, dr),
        ensures
            resident_decide_rel(*map, *old(self), agent.position, dr, *final(self), r),
            resident_wf(*final(self)),
            is_leaf(r),
    {
        // Defensive rule: the resident's own tile may have been deleted
        // out from under it; then it dies rather than keep routing.
        if map.get(agent.position).is_none() {
            return AgentAction::Dead;
        }
        let home = self.home;
        match self.state {
            ResidentState::MovingIn | ResidentState::GoingHome => self.going_to(
                agent,
                map,
                home,
                ResidentState::AtHome,
                AgentAction::Idle,
            ),
            ResidentState::AtHome => {
                if dr.go_working && self.work.is_some() {
                    self.state = ResidentState::GoingToWork;
                    let work = self.work.unwrap();
                    self.going_to(agent, map, work, ResidentState::Working, AgentAction::Idle)
                } else if dr.go_drinking {
                    let closest = closest_building(map, agent.position, Building::Saloon);
                    let ghost closest_g = closest;
                    let result = match closest {
                        None => AgentAction::Dead,
                        Some(c) => {
                            self.state = ResidentState::GoingToDrink(c);
                            self.going_to(
                                agent,
                                map,
                                c,
                                ResidentState::Drinking,
                                AgentAction::Idle,
                            )
                        },
                    };
                    proof {
                        assert(closest_possible(*map, agent.position, Building::Saloon, closest_g));
                    }
                    result
                } else if dr.go_shopping {
                    let closest = closest_building(map, agent.position, Building::GeneralStore);
                    let ghost closest_g = closest;
                    let result = match closest {
                        None => AgentAction::Dead,
                        Some(c) => {
                            self.state = ResidentState::GoingToShop(c);
                            self.going_to(
                                agent,
                                map,
                                c,
                                ResidentState::Shopping,
                                AgentAction::Idle,
                            )
                        },
                    };
                    proof {
                        assert(closest_possible(
                            *map,
                            agent.position,
                            Building::GeneralStore,
                            closest_g,
                        ));
                    }
                    result
                } else {
                    AgentAction::Idle
                }
            },
            ResidentState::GoingToShop(shop_pos) => self.going_to(
                agent,
                map,
                shop_pos,
                ResidentState::Shopping,
                AgentAction::Idle,
            ),
            ResidentState::Shopping => {
                if dr.leave_shopping {
                    self.go_home(agent, map)
                } else {
                    AgentAction::Idle
                }
            },
            ResidentState::GoingToDrink(saloon_pos) => self.going_to(
                agent,
                map,
                saloon_pos,
                ResidentState::Drinking,
                AgentAction::Idle,
            ),
            ResidentState::Drinking => {
                let factories = map.buildings_of(Building::Factory);
                if dr.take_job && factories.len() > 0 {
                    let work = factories[dr.factory_pick as usize];
                    self.work = Some(work);
                    self.state = ResidentState::GoingToWork;
                    self.going_to(agent, map, work, ResidentState::Working, AgentAction::Idle)
                } else if dr.leave_saloon {
                    self.go_home(agent, map)
                } else {
                    AgentAction::Idle
                }
            },
            ResidentState::GoingToWork => {
                let work = self.work.unwrap();
                self.going_to(agent, map, work, ResidentState::Working, AgentAction::Idle)
            },
            ResidentState::Working => {
                if dr.stop_working {
                    self.go_home(agent, map)
                } else {
                    AgentAction::Idle
                }
            },
        }
    }

    /// One decision, drawing its own randomness: a resident going
    /// somewhere steps along a route or dies if none exists; one at home
    /// rolls whether to work, drink or shop; one shopping, drinking or
    /// working rolls whether to leave, and a drinker may take a job at a
    /// uniformly random factory.
    pub fn decide_action(&mut self, agent: &AgentState, map: &TileMap) -> (r: AgentAction)
        requires
            resident_wf(*old(self)),
        ensures
            exists|dr: ResidentDraws|
                #[trigger] resident_draws_ok(*map, dr) && resident_decide_rel(
                    *map,
                    *old(self),
                    agent.position,
                    dr,
                    *final(self),
                    r,
                ),
            resident_wf(*final(self)),
            is_leaf(r),
    {
        let factory_count = map.buildings_of(Building::Factory).len();
        let dr = ResidentDraws {
            go_drinking: rand_below(60) == 0,
            go_shopping: rand_below(40) == 0,
            go_working: rand_below(80) == 0,
            leave_shopping: rand_below(10) == 0,
            take_job: if self.work.is_none() {
                rand_below(100) == 0
            } else {
                rand_below(1000) == 0
            },
            leave_saloon: rand_below(40) == 0,
            stop_working: rand_below(2000) == 0,
            factory_pick: if factory_count > 0 {
                rand_below(factory_count as u64)
            } else {
                0
            },
        };
        let r = self.decide_action_with(agent, map, dr);
        proof {
            assert(resident_draws_ok(*map, dr));
        }
        r
    }
}

/// One decision's worth of random draws for the train: whether an empty,
/// out-of-bounds train sets off on another loop this decision.
#[derive(Copy, Clone, Debug)]
pub struct TrainDraws {
    pub set_off: bool,
}

/// The cell just behind the train's head.
pub open spec fn train_head(pos: Coord2) -> Coord2 {
    Coord2 { x: if pos.x >= 1 { (pos.x - 1) as u64 } else { 0 }, y: pos.y }
}

/// The train state machine: whether deciding from `d0` at `pos` on a map
/// `width` cells wide, with draws `dr` and the waiting passengers
/// `intake0`, may leave behaviour `d1`, action `action` and the remaining
/// intake `intake1`. The machine is deterministic but for the set-off
/// draw: it moves east until its head aligns with the platform, dwells
/// there releasing one passenger per decision while any remain (skipping
/// the stop when it has none to release and none are waiting), then
/// departs east and loops back from the map's east bound.
pub open spec fn train_decide_rel(
    d0: TrainDecider,
    pos: Coord2,
    width: u64,
    dr: TrainDraws,
    intake0: Seq<Agent>,
    d1: TrainDecider,
    action: AgentAction,
    intake1: Seq<Agent>,
) -> bool {
    match d0.state {
        TrainState::Arriving => {
            if train_head(pos) == d0.platform {
                if d0.passengers@.len() > 0 {
                    &&& d1.platform == d0.platform
                    &&& d1.state == TrainState::AtPlatform(DWELL_DECISIONS)
                    &&& d1.passengers@ == d0.passengers@
                    &&& action is Idle
                    &&& intake1 == intake0
                } else {
                    &&& intake1.len() == 0
                    &&& d1.platform == d0.platform
                    &&& if intake0.len() == 0 {
                        &&& d1.state == TrainState::Departing
                        &&& d1.passengers@ == d0.passengers@
                        &&& action == AgentAction::Move(Direction::East)
                    } else {
                        &&& d1.state == TrainState::AtPlatform(DWELL_DECISIONS)
                        &&& d1.passengers@ == d0.passengers@ + intake0
                        &&& action is Idle
                    }
                }
            } else {
                &&& d1.platform == d0.platform
                &&& d1.state == d0.state
                &&& d1.passengers@ == d0.passengers@
                &&& action == AgentAction::Move(Direction::East)
                &&& intake1 == intake0
            }
        },
        TrainState::AtPlatform(remaining) => {
            &&& intake1 == intake0
            &&& d1.platform == d0.platform
            &&& if remaining > 0 || d0.passengers@.len() > 0 {
                let rem1: u64 = if remaining > 0 {
                    (remaining - 1) as u64
                } else {
                    0
                };
                &&& d1.state == TrainState::AtPlatform(rem1)
                &&& if d0.passengers@.len() > 0 {
                    &&& d1.passengers@ == d0.passengers@.drop_last()
                    &&& (action matches AgentAction::Yield(agents, then) && agents@ == seq![
                        d0.passengers@.last(),
                    ] && *then is Idle)
                } else {
                    &&& d1.passengers@ == d0.passengers@
                    &&& action is Idle
                }
            } else {
                &&& d1.state == TrainState::Departing
                &&& d1.passengers@ == d0.passengers@
                &&& action == AgentAction::Move(Direction::East)
            }
        },
        TrainState::Departing => {
            &&& d1.platform == d0.platform
            &&& if pos.x < width {
                &&& d1.state == d0.state
                &&& d1.passengers@ == d0.passengers@
                &&& action == AgentAction::Move(Direction::East)
                &&& intake1 == intake0
            } else {
                &&& intake1.len() == 0
                &&& d1.passengers@ == d0.passengers@ + intake0
                &&& if d0.passengers@.len() > 0 || dr.set_off {
                    &&& d1.state == TrainState::Arriving
                    &&& (action matches AgentAction::Jump(p, then) && p == (Coord2 { x: 0, y: 0 })
                        && *then == AgentAction::Move(Direction::East))
                } else {
                    &&& d1.state == TrainState::Departing
                    &&& action is Idle
                }
            }
        },
    }
}

impl TrainDecider {
    /// A train bound for `platform`, starting a fresh approach with no
    /// passengers aboard.
    pub fn new(platform: Coord2) -> (r: TrainDecider)
        ensures
            r.platform == platform,
            r.state == TrainState::Arriving,
            r.passengers@.len() == 0,
            decider_wf(AgentDecider::Train(r)),
    {
        TrainDecider { platform, state: TrainState::Arriving, passengers: Vec::new() }
    }

    /// Boards every passenger waiting in the intake.
    fn take_all_ready_passengers(&mut self, intake: &mut Vec<Agent>)
        ensures
            final(self).passengers@ == old(self).passengers@ + old(intake)@,
            final(self).platform == old(self).platform,
            final(self).state == old(self).state,
            final(intake)@.len() == 0,
    {
        self.passengers.append(intake);
    }

    /// One decision, with the draws fixed by the caller: the harness entry
    /// point that makes the set-off roll testable.
    pub fn decide_action_with(
        &mut self,
        agent: &AgentState,
        map: &TileMap,
        dr: TrainDraws,
        intake: &mut Vec<Agent>,
    ) -> (r: AgentAction)
        ensures
            train_decide_rel(
                *old(self),
                agent.position,
                map.dims().x,
                dr,
                old(intake)@,
                *final(self),
                r,
                final(intake)@,
            ),
            !(leaf_of(r) is Dead),
            forall|x: Agent|
                #[trigger] yielded_agents(r).contains(x) ==> old(self).passengers@.contains(x),
            forall|x: Agent|
                #[trigger] final(self).passengers@.contains(x) ==> old(self).passengers@.contains(
                    x,
                ) || old(intake)@.contains(x),
    {
        let r = match self.state {
            TrainState::Arriving => {
                let head_pos = Coord2 {
                    x: if agent.position.x >= 1 {
                        agent.position.x - 1
                    } else {
                        0
                    },
                    y: agent.position.y,
                };
                if head_pos.x == self.platform.x && head_pos.y == self.platform.y {
                    // About to pass the platform: when carrying nobody,
                    // opportunistically board whoever is waiting rather
                    // than waste the stop.
                    if self.passengers.len() == 0 {
                        self.take_all_ready_passengers(intake);
                    }
                    if self.passengers.len() == 0 {
                        // Nobody to release: skip the stop.
                        self.state = TrainState::Departing;
                        AgentAction::Move(Direction::East)
                    } else {
                        self.state = TrainState::AtPlatform(DWELL_DECISIONS);
                        AgentAction::Idle
                    }
                } else {
                    AgentAction::Move(Direction::East)
                }
            },
            TrainState::AtPlatform(remaining) => {
                if remaining > 0 || self.passengers.len() > 0 {
                    let rem1 = if remaining > 0 {
                        remaining - 1
                    } else {
                        0
                    };
                    self.state = TrainState::AtPlatform(rem1);
                    match self.passengers.pop() {
                        Some(passenger) => {
                            let mut released: Vec<Agent> = Vec::new();
                            released.push(passenger);
                            proof {
                                assert(released@ =~= seq![old(self).passengers@.last()]);
                            }
                            AgentAction::Yield(released, Box::new(AgentAction::Idle))
                        },
                        None => AgentAction::Idle,
                    }
                } else {
                    self.state = TrainState::Departing;
                    AgentAction::Move(Direction::East)
                }
            },
            TrainState::Departing => {
                if agent.position.x < map.width() {
                    AgentAction::Move(Direction::East)
                } else {
                    // Past the east bound: board whoever waits, and loop
                    // back to the origin when carrying anyone (or, when
                    // empty, on the set-off roll, so the train keeps
                    // circulating on a schedule).
                    if self.passengers.len() > 0 {
                        self.take_all_ready_passengers(intake);
                        self.state = TrainState::Arriving;
                        AgentAction::Jump(
                            Coord2 { x: 0, y: 0 },
                            Box::new(AgentAction::Move(Direction::East)),
                        )
                    } else {
                        self.take_all_ready_passengers(intake);
                        if dr.set_off {
                            self.state = TrainState::Arriving;
                            AgentAction::Jump(
                                Coord2 { x: 0, y: 0 },
                                Box::new(AgentAction::Move(Direction::East)),
                            )
                        } else {
                            AgentAction::Idle
                        }
                    }
                }
            },
        };
        proof {
            reveal_with_fuel(leaf_of, 3);
            reveal_with_fuel(yielded_agents, 3);
            let ys = yielded_agents(r);
            let s0 = old(self).passengers@;
            assert forall|x: Agent| #[trigger] ys.contains(x) implies s0.contains(x) by {
                let j = choose|j: int| 0 <= j < ys.len() && ys[j] == x;
                assert(x == s0[s0.len() - 1]);
            }
            let s1 = self.passengers@;
            assert forall|x: Agent| #[trigger] s1.contains(x) implies s0.contains(x)
                || old(intake)@.contains(x) by {
                let j = choose|j: int| 0 <= j < s1.len() && s1[j] == x;
                if s1 == s0 + old(intake)@ {
                    if j < s0.len() {
                        assert(s0[j] == x);
                    } else {
                        assert(old(intake)@[j - s0.len()] == x);
                    }
                } else {
                    assert(s0[j] == x);
                }
            }
        }
        r
    }

    /// One decision, drawing the set-off roll itself (an empty train past
    /// the east bound sets off again about once in 68 decisions).
    pub fn decide_action(&mut self, agent: &AgentState, map: &TileMap, intake: &mut Vec<Agent>) -> (r:
        AgentAction)
        ensures
            exists|dr: TrainDraws|
                #[trigger] train_decide_rel(
                    *old(self),
                    agent.position,
                    map.dims().x,
                    dr,
                    old(intake)@,
                    *final(self),
                    r,
                    final(intake)@,
                ),
            !(leaf_of(r) is Dead),
            forall|x: Agent|
                #[trigger] yielded_agents(r).contains(x) ==> old(self).passengers@.contains(x),
            forall|x: Agent|
                #[trigger] final(self).passengers@.contains(x) ==> old(self).passengers@.contains(
                    x,
                ) || old(intake)@.contains(x),
    {
        let dr = TrainDraws { set_off: rand_below(68) == 0 };
        self.decide_action_with(agent, map, dr, intake)
    }
}

/// Where a cell ends up after one committed step in direction `d`; a step
/// that would leave the unsigned grid is guarded and stays put.
pub open spec fn step_position(p: Coord2, d: Direction) -> Coord2 {
    match d {
        Direction::North => if p.y > 0 {
            Coord2 { x: p.x, y: (p.y - 1) as u64 }
        } else {
            p
        },
        Direction::East => if p.x < u64::MAX {
            Coord2 { x: (p.x + 1) as u64, y: p.y }
        } else {
            p
        },
        Direction::South => if p.y < u64::MAX {
            Coord2 { x: p.x, y: (p.y + 1) as u64 }
        } else {
            p
        },
        Direction::West => if p.x > 0 {
            Coord2 { x: (p.x - 1) as u64, y: p.y }
        } else {
            p
        },
    }
}

/// One tick of motion applied to one agent: a moving agent accumulates one
/// grain of sub-cell offset, and on the unit's last tick instead commits
/// to the next cell with its offset snapped to exactly zero. Other leaves
/// leave the agent untouched.
pub open spec fn spec_move_agent(a: Agent, last: bool) -> Agent {
    match a.action {
        AgentAction::Move(d) => {
            let off = spec_direction_offset(d);
            if last {
                Agent {
                    state: AgentState { id: a.state.id, position: step_position(a.state.position, d) },
                    action: a.action,
                    subunit_x: 0,
                    subunit_y: 0,
                    decider: a.decider,
                }
            } else {
                Agent {
                    state: a.state,
                    action: a.action,
                    subunit_x: (a.subunit_x + off.0) as i64,
                    subunit_y: (a.subunit_y + off.1) as i64,
                    decider: a.decider,
                }
            }
        },
        _ => a,
    }
}

/// One tick of motion applied to a whole roster: dead agents leave, and
/// everyone else moves by `spec_move_agent`.
pub open spec fn spec_move_sweep(s: Seq<Agent>, last: bool) -> Seq<Agent>
    decreases s.len(),
{
    if s.len() == 0 {
        Seq::empty()
    } else {
        let rest = spec_move_sweep(s.drop_first(), last);
        if s[0].action is Dead {
            rest
        } else {
            seq![spec_move_agent(s[0], last)] + rest
        }
    }
}

/// One agent's continuous position for drawing: its committed cell plus a
/// sub-cell offset in grains of `1 / ticks_per_unit` of a cell.
#[derive(Copy, Clone, Debug, PartialEq, Eq, Structural)]
pub struct SubunitPosition {
    pub kind: AgentKind,
    pub cell: Coord2,
    pub grains_x: i64,
    pub grains_y: i64,
}

/// The live agent set and the tick scheduler: residents and trains each in
/// a roster, the passenger intake queue that newly built houses feed, and
/// the two nested counters that divide time into units of
/// `ticks_per_unit` ticks.
#[derive(Debug)]
pub struct Agents {
    ticks_per_unit: u64,
    ticks_this_unit: u64,
    residents: Vec<Agent>,
    trains: Vec<Agent>,
    intake: Vec<Agent>,
}

impl Agents {
    /// The configured number of ticks per decision unit.
    pub closed spec fn tpu(self) -> u64 {
        self.ticks_per_unit
    }

    /// How many ticks of the current unit have elapsed.
    pub closed spec fn ticks(self) -> u64 {
        self.ticks_this_unit
    }

    /// The resident roster.
    pub closed spec fn residents_view(self) -> Seq<Agent> {
        self.residents@
    }

    /// The train roster.
    pub closed spec fn trains_view(self) -> Seq<Agent> {
        self.trains@
    }

    /// The passengers waiting to board.
    pub closed spec fn intake_view(self) -> Seq<Agent> {
        self.intake@
    }

    /// The scheduler's invariant: a sane tick resolution, a tick counter
    /// inside the unit, sound agents whose sub-cell offsets never exceed
    /// the elapsed ticks, and a passenger-fit intake.
    pub open spec fn wf(self) -> bool {
        &&& 1 <= self.tpu() <= MAX_TICKS_PER_UNIT
        &&& self.ticks() < self.tpu()
        &&& forall|i: int|
            0 <= i < self.residents_view().len() ==> agent_wf(
                #[trigger] self.residents_view()[i],
                self.ticks(),
            )
        &&& forall|i: int|
            0 <= i < self.trains_view().len() ==> agent_wf(
                #[trigger] self.trains_view()[i],
                self.ticks(),
            )
        &&& forall|i: int|
            0 <= i < self.intake_view().len() ==> passenger_wf(#[trigger] self.intake_view()[i])
    }

    /// An empty registry deciding once every `ticks_per_unit` ticks.
    pub fn new(ticks_per_unit: u64) -> (r: Agents)
        requires
            1 <= ticks_per_unit <= MAX_TICKS_PER_UNIT,
        ensures
            r.wf(),
            r.tpu() == ticks_per_unit,
            r.ticks() == 0,
            r.residents_view().len() == 0,
            r.trains_view().len() == 0,
            r.intake_view().len() == 0,
    {
        Agents {
            ticks_per_unit,
            ticks_this_unit: 0,
            residents: Vec::new(),
            trains: Vec::new(),
            intake: Vec::new(),
        }
    }

    /// The configured tick resolution (the denominator of every sub-cell
    /// offset).
    pub fn ticks_per_unit(&self) -> (r: u64)
        ensures
            r == self.tpu(),
    {
        self.ticks_per_unit
    }

    /// The resident roster, for inspection.
    pub fn resident_agents(&self) -> (r: &Vec<Agent>)
        ensures
            r@ == self.residents_view(),
    {
        &self.residents
    }

    /// The train roster, for inspection.
    pub fn train_agents(&self) -> (r: &Vec<Agent>)
        ensures
            r@ == self.trains_view(),
    {
        &self.trains
    }

    /// Adds `agent` to the roster of `kind`, replacing any agent already
    /// registered under the same identifier.
    pub fn insert(&mut self, kind: AgentKind, agent: Agent)
        requires
            old(self).wf(),
            agent_wf(agent, 0),
        ensures
            final(self).wf(),
            final(self).tpu() == old(self).tpu(),
            final(self).ticks() == old(self).ticks(),
            final(self).intake_view() == old(self).intake_view(),
            kind == AgentKind::Resident ==> final(self).trains_view() == old(self).trains_view()
                && roster_inserted(old(self).residents_view(), final(self).residents_view(), agent),
            kind == AgentKind::Train ==> final(self).residents_view() == old(
                self,
            ).residents_view() && roster_inserted(
                old(self).trains_view(),
                final(self).trains_view(),
                agent,
            ),
    {
        match kind {
            AgentKind::Resident => insert_into_roster(&mut self.residents, agent),
            AgentKind::Train => insert_into_roster(&mut self.trains, agent),
        }
        proof {
            let t = self.ticks_this_unit;
            assert(t == old(self).ticks());
            assert forall|i: int|
                0 <= i < self.residents_view().len() implies agent_wf(
                #[trigger] self.residents_view()[i],
                t,
            ) by {
                if kind == AgentKind::Resident {
                    assert(from_roster(old(self).residents@, self.residents_view()[i], agent));
                    if self.residents_view()[i] != agent {
                        let j = choose|j: int|
                            0 <= j < old(self).residents@.len() && #[trigger] old(
                                self,
                            ).residents@[j] == self.residents_view()[i];
                        assert(agent_wf(old(self).residents_view()[j], old(self).ticks()));
                    }
                } else {
                    assert(self.residents_view()[i] == old(self).residents_view()[i]);
                    assert(agent_wf(old(self).residents_view()[i], old(self).ticks()));
                }
            }
            assert forall|i: int|
                0 <= i < self.trains_view().len() implies agent_wf(
                #[trigger] self.trains_view()[i],
                t,
            ) by {
                if kind == AgentKind::Train {
                    assert(from_roster(old(self).trains@, self.trains_view()[i], agent));
                    if self.trains_view()[i] != agent {
                        let j = choose|j: int|
                            0 <= j < old(self).trains@.len() && #[trigger] old(self).trains@[j]
                                == self.trains_view()[i];
                        assert(agent_wf(old(self).trains_view()[j], old(self).ticks()));
                    }
                } else {
                    assert(self.trains_view()[i] == old(self).trains_view()[i]);
                    assert(agent_wf(old(self).trains_view()[i], old(self).ticks()));
                }
            }
            assert forall|i: int|
                0 <= i < self.intake_view().len() implies passenger_wf(
                #[trigger] self.intake_view()[i],
            ) by {
                assert(self.intake_view()[i] == old(self).intake_view()[i]);
            }
        }
    }

    /// Hands a freshly built house's new resident to the train's intake;
    /// the train boards everyone waiting when it next polls the queue.
    pub fn queue_passenger(&mut self, agent: Agent)
        requires
            old(self).wf(),
            passenger_wf(agent),
        ensures
            final(self).wf(),
            final(self).tpu() == old(self).tpu(),
            final(self).ticks() == old(self).ticks(),
            final(self).intake_view() == old(self).intake_view().push(agent),
            final(self).residents_view() == old(self).residents_view(),
            final(self).trains_view() == old(self).trains_view(),
    {
        self.intake.push(agent);
        proof {
            assert forall|i: int|
                0 <= i < self.intake_view().len() implies passenger_wf(
                #[trigger] self.intake_view()[i],
            ) by {
                if i < self.intake_view().len() - 1 {
                    assert(self.intake_view()[i] == old(self).intake_view()[i]);
                    assert(passenger_wf(old(self).intake_view()[i]));
                }
            }
            assert forall|i: int|
                0 <= i < self.residents_view().len() implies agent_wf(
                #[trigger] self.residents_view()[i],
                self.ticks(),
            ) by {
                assert(agent_wf(old(self).residents_view()[i], old(self).ticks()));
            }
            assert forall|i: int|
                0 <= i < self.trains_view().len() implies agent_wf(
                #[trigger] self.trains_view()[i],
                self.ticks(),
            ) by {
                assert(agent_wf(old(self).trains_view()[i], old(self).ticks()));
            }
        }
    }

    /// The continuous position of every agent, trains after residents, for
    /// drawing: each entry's offset is in grains of `1 / ticks_per_unit`
    /// of a cell.
    pub fn agent_subunit_positions(&self) -> (r: Vec<SubunitPosition>)
        ensures
            r@.len() == self.residents_view().len() + self.trains_view().len(),
            forall|i: int|
                0 <= i < self.residents_view().len() ==> r@[i] == (SubunitPosition {
                    kind: AgentKind::Resident,
                    cell: self.residents_view()[i].state.position,
                    grains_x: self.residents_view()[i].subunit_x,
                    grains_y: self.residents_view()[i].subunit_y,
                }),
            forall|i: int|
                0 <= i < self.trains_view().len() ==> r@[self.residents_view().len() + i] == (
                SubunitPosition {
                    kind: AgentKind::Train,
                    cell: self.trains_view()[i].state.position,
                    grains_x: self.trains_view()[i].subunit_x,
                    grains_y: self.trains_view()[i].subunit_y,
                }),
    {
        let mut r: Vec<SubunitPosition> = Vec::new();
        let mut i: usize = 0;
        while i < self.residents.len()
            invariant
                0 <= i <= self.residents@.len(),
                r@.len() == i,
                forall|j: int|
                    0 <= j < i ==> r@[j] == (SubunitPosition {
                        kind: AgentKind::Resident,
                        cell: self.residents@[j].state.position,
                        grains_x: self.residents@[j].subunit_x,
                        grains_y: self.residents@[j].subunit_y,
                    }),
            decreases self.residents@.len() - i,
        {
            let a = &self.residents[i];
            r.push(
                SubunitPosition {
                    kind: AgentKind::Resident,
                    cell: a.state.position,
                    grains_x: a.subunit_x,
                    grains_y: a.subunit_y,
                },
            );
            i = i + 1;
        }
        let mut j: usize = 0;
        while j < self.trains.len()
            invariant
                0 <= j <= self.trains@.len(),
                r@.len() == self.residents@.len() + j,
                forall|k: int|
                    0 <= k < self.residents@.len() ==> r@[k] == (SubunitPosition {
                        kind: AgentKind::Resident,
                        cell: self.residents@[k].state.position,
                        grains_x: self.residents@[k].subunit_x,
                        grains_y: self.residents@[k].subunit_y,
                    }),
                forall|k: int|
                    0 <= k < j ==> r@[self.residents@.len() + k] == (SubunitPosition {
                        kind: AgentKind::Train,
                        cell: self.trains@[k].state.position,
                        grains_x: self.trains@[k].subunit_x,
                        grains_y: self.trains@[k].subunit_y,
                    }),
            decreases self.trains@.len() - j,
        {
            let a = &self.trains[j];
            r.push(
                SubunitPosition {
                    kind: AgentKind::Train,
                    cell: a.state.position,
                    grains_x: a.subunit_x,
                    grains_y: a.subunit_y,
                },
            );
            j = j + 1;
        }
        r
    }
}

/// Whether this action is `Dead`.
fn action_is_dead(a: &AgentAction) -> (r: bool)
    ensures
        r == (*a is Dead),
{
    match a {
        AgentAction::Dead => true,
        _ => false,
    }
}

/// The direction of a `Move` action, if it is one.
fn action_move_direction(a: &AgentAction) -> (r: Option<Direction>)
    ensures
        *a matches AgentAction::Move(d) ==> r == Some(d),
        !(*a is Move) ==> r is None,
{
    match a {
        AgentAction::Move(d) => Some(*d),
        _ => None,
    }
}

/// A passenger is a sound agent at any tick count: its offsets are zero.
proof fn lemma_passenger_is_agent(a: Agent, ticks: u64)
    requires
        passenger_wf(a),
    ensures
        agent_wf(a, ticks),
{
}

/// Applies one tick of motion to a whole roster: dead agents leave; a
/// moving agent gains one grain of offset, or on the unit's last tick
/// commits to its next cell with the offset snapped to zero.
fn move_sweep(agents: Vec<Agent>, last: bool, Ghost(bound): Ghost<u64>) -> (r: Vec<Agent>)
    requires
        bound < MAX_TICKS_PER_UNIT,
        forall|i: int| 0 <= i < agents@.len() ==> agent_wf(#[trigger] agents@[i], bound),
    ensures
        r@ == spec_move_sweep(agents@, last),
        forall|i: int|
            0 <= i < r@.len() ==> agent_wf(
                #[trigger] r@[i],
                if last {
                    0
                } else {
                    (bound + 1) as u64
                },
            ),
{
    let new_bound: Ghost<u64> = Ghost(
        if last {
            0
        } else {
            (bound + 1) as u64
        },
    );
    let mut remaining = agents;
    let ghost orig = remaining@;
    let mut out: Vec<Agent> = Vec::new();
    while remaining.len() > 0
        invariant
            bound < MAX_TICKS_PER_UNIT,
            new_bound@ == if last {
                0
            } else {
                (bound + 1) as u64
            },
            forall|i: int| 0 <= i < remaining@.len() ==> agent_wf(#[trigger] remaining@[i], bound),
            out@ + spec_move_sweep(remaining@, last) == spec_move_sweep(orig, last),
            forall|i: int| 0 <= i < out@.len() ==> agent_wf(#[trigger] out@[i], new_bound@),
        decreases remaining@.len(),
    {
        let ghost pre = remaining@;
        let a = remaining.remove(0);
        proof {
            assert(a == pre[0]);
            assert(agent_wf(pre[0], bound));
            assert(remaining@ =~= pre.drop_first());
            assert forall|i: int| 0 <= i < remaining@.len() implies agent_wf(
                #[trigger] remaining@[i],
                bound,
            ) by {
                assert(remaining@[i] == pre[i + 1]);
                assert(agent_wf(pre[i + 1], bound));
            }
        }
        let ghost moved_spec = spec_move_agent(a, last);
        if action_is_dead(&a.action) {
            proof {
                assert(spec_move_sweep(pre, last) == spec_move_sweep(pre.drop_first(), last));
            }
        } else {
            let dir = action_move_direction(&a.action);
            let ghost out_pre = out@;
            match dir {
                Some(d) => {
                    let Agent { state, action, subunit_x, subunit_y, decider } = a;
                    let off = d.as_offset();
                    let moved = if last {
                        let new_pos = match d {
                            Direction::North => if state.position.y > 0 {
                                Coord2 { x: state.position.x, y: state.position.y - 1 }
                            } else {
                                state.position
                            },
                            Direction::East => if state.position.x < u64::MAX {
                                Coord2 { x: state.position.x + 1, y: state.position.y }
                            } else {
                                state.position
                            },
                            Direction::South => if state.position.y < u64::MAX {
                                Coord2 { x: state.position.x, y: state.position.y + 1 }
                            } else {
                                state.position
                            },
                            Direction::West => if state.position.x > 0 {
                                Coord2 { x: state.position.x - 1, y: state.position.y }
                            } else {
                                state.position
                            },
                        };
                        Agent {
                            state: AgentState { id: state.id, position: new_pos },
                            action,
                            subunit_x: 0,
                            subunit_y: 0,
                            decider,
                        }
                    } else {
                        Agent {
                            state,
                            action,
                            subunit_x: subunit_x + off.0,
                            subunit_y: subunit_y + off.1,
                            decider,
                        }
                    };
                    proof {
                        assert(moved == moved_spec);
                        assert(agent_wf(moved, new_bound@));
                    }
                    out.push(moved);
                },
                None => {
                    proof {
                        assert(moved_spec == a);
                        assert(agent_wf(a, new_bound@));
                    }
                    out.push(a);
                },
            }
            proof {
                assert(spec_move_sweep(pre, last) == seq![moved_spec] + spec_move_sweep(
                    pre.drop_first(),
                    last,
                ));
                assert(out@ == out_pre.push(moved_spec));
                assert(out_pre.push(moved_spec) + spec_move_sweep(remaining@, last) =~= out_pre + (
                seq![moved_spec] + spec_move_sweep(remaining@, last)));
            }
        }
    }
    proof {
        assert(remaining@.len() == 0);
        assert(spec_move_sweep(remaining@, last) =~= Seq::<Agent>::empty());
        assert(out@ + Seq::<Agent>::empty() =~= out@);
    }
    out
}

/// One decider's step, as the decide phase takes it: for some draws, the
/// old behaviour relates to the new behaviour and the returned action by
/// its state machine, and the passenger intake moves from `intake0` to
/// `intake1` (a resident never touches it).
pub open spec fn decider_stepped(
    m: TileMap,
    d_old: AgentDecider,
    d_new: AgentDecider,
    act: AgentAction,
    pos: Coord2,
    intake0: Seq<Agent>,
    intake1: Seq<Agent>,
) -> bool {
    match d_old {
        AgentDecider::Resident(r0) => intake1 == intake0 && exists|
            dr: ResidentDraws,
            r1: ResidentDecider,
        |
            #[trigger] resident_decide_rel(m, r0, pos, dr, r1, act) && resident_draws_ok(m, dr)
                && d_new == AgentDecider::Resident(r1),
        AgentDecider::Train(t0) => exists|dr: TrainDraws, t1: TrainDecider|
            #[trigger] train_decide_rel(t0, pos, m.dims().x, dr, intake0, t1, act, intake1)
                && d_new == AgentDecider::Train(t1),
    }
}

/// One agent's passage through the decide phase: its decider steps by its
/// relation for some action, the action's jumps move the agent and its
/// leaf becomes the agent's pending action, and `ys` is exactly what the
/// action yielded on the way to that leaf.
pub open spec fn agent_decided(
    m: TileMap,
    a0: Agent,
    a1: Agent,
    ys: Seq<Agent>,
    intake0: Seq<Agent>,
    intake1: Seq<Agent>,
) -> bool {
    exists|act: AgentAction|
        {
            &&& #[trigger] decider_stepped(
                m,
                a0.decider,
                a1.decider,
                act,
                a0.state.position,
                intake0,
                intake1,
            )
            &&& a1.state.id == a0.state.id
            &&& a1.state.position == jump_target(act, a0.state.position)
            &&& a1.action == leaf_of(act)
            &&& a1.subunit_x == a0.subunit_x
            &&& a1.subunit_y == a0.subunit_y
            &&& ys == yielded_agents(act)
        }
}

impl Agents {
    /// The decide phase: every agent decides once (trains first, since
    /// they feed released passengers back into the settlement), each
    /// returned action is unwound to its leaf, and every agent yielded
    /// along the way is buffered and joins the resident roster only after
    /// the whole phase completes, so no agent decides in the unit it is
    /// released. Decisions belong at the start of a unit: the scheduler
    /// calls this exactly when the tick counter wraps, which is what the
    /// precondition on the counter says.
    pub fn decide(&mut self, map: &TileMap) -> (wit: (
        Ghost<Seq<Seq<Agent>>>,
        Ghost<Seq<Seq<Agent>>>,
    ))
        requires
            old(self).wf(),
            old(self).ticks() == 0,
        ensures
            final(self).wf(),
            final(self).tpu() == old(self).tpu(),
            final(self).ticks() == 0,
            final(self).trains_view().len() == old(self).trains_view().len(),
            forall|i: int|
                0 <= i < old(self).trains_view().len() ==> {
                    let t1 = #[trigger] final(self).trains_view()[i];
                    let t0 = old(self).trains_view()[i];
                    t1.state.id == t0.state.id && t1.subunit_x == t0.subunit_x && t1.subunit_y
                        == t0.subunit_y
                },
            final(self).residents_view().len() >= old(self).residents_view().len(),
            forall|i: int|
                0 <= i < old(self).residents_view().len() ==> {
                    let r1 = #[trigger] final(self).residents_view()[i];
                    let r0 = old(self).residents_view()[i];
                    &&& r1.state.id == r0.state.id
                    &&& r1.subunit_x == r0.subunit_x
                    &&& r1.subunit_y == r0.subunit_y
                    &&& r0.decider is Resident ==> r1.state == r0.state
                },
            forall|j: int|
                old(self).residents_view().len() <= j < final(self).residents_view().len()
                    ==> passenger_wf(#[trigger] final(self).residents_view()[j]),
            // The phase's full account: `wit.0` is the intake before the
            // phase and after each train in turn; `wit.1` is what each
            // agent's action yielded, trains first, then residents; the
            // roster's new tail is exactly those yields, in order.
            wit.0@.len() == old(self).trains_view().len() + 1,
            wit.0@[0] == old(self).intake_view(),
            final(self).intake_view() == wit.0@[old(self).trains_view().len() as int],
            wit.1@.len() == old(self).trains_view().len() + old(self).residents_view().len(),
            forall|k: int|
                0 <= k < old(self).trains_view().len() ==> agent_decided(
                    *map,
                    old(self).trains_view()[k],
                    final(self).trains_view()[k],
                    #[trigger] wit.1@[k],
                    wit.0@[k],
                    wit.0@[k + 1],
                ),
            forall|k: int|
                0 <= k < old(self).residents_view().len() && old(
                    self,
                ).residents_view()[k].decider is Resident ==> agent_decided(
                    *map,
                    old(self).residents_view()[k],
                    final(self).residents_view()[k],
                    #[trigger] wit.1@[old(self).trains_view().len() + k],
                    Seq::<Agent>::empty(),
                    Seq::<Agent>::empty(),
                ),
            final(self).residents_view().len() == old(self).residents_view().len()
                + wit.1@.flatten().len(),
            final(self).residents_view().subrange(
                old(self).residents_view().len() as int,
                final(self).residents_view().len() as int,
            ) == wit.1@.flatten(),
    {
        let mut buffer: Vec<Agent> = Vec::new();
        let mut intake_local: Vec<Agent> = Vec::new();
        core::mem::swap(&mut intake_local, &mut self.intake);
        proof {
            assert forall|i: int| 0 <= i < intake_local@.len() implies passenger_wf(
                #[trigger] intake_local@[i],
            ) by {
                assert(intake_local@[i] == old(self).intake_view()[i]);
                assert(passenger_wf(old(self).intake_view()[i]));
            }
        }

        // Trains decide first.
        let mut pending: Vec<Agent> = Vec::new();
        core::mem::swap(&mut pending, &mut self.trains);
        let ghost trains0 = old(self).trains_view();
        let ghost mut intakes: Seq<Seq<Agent>> = seq![intake_local@];
        let ghost mut all_yields: Seq<Seq<Agent>> = Seq::empty();
        proof {
            assert(buffer@ =~= all_yields.flatten());
        }
        while pending.len() > 0
            invariant
                self.tpu() == old(self).tpu(),
                self.ticks() == 0,
                self.residents_view() == old(self).residents_view(),
                self.intake_view().len() == 0,
                trains0 == old(self).trains_view(),
                self.trains_view().len() + pending@.len() == trains0.len(),
                pending@ == trains0.subrange(
                    trains0.len() - pending@.len(),
                    trains0.len() as int,
                ),
                forall|i: int| 0 <= i < trains0.len() ==> agent_wf(#[trigger] trains0[i], 0),
                forall|k: int|
                    0 <= k < self.trains_view().len() ==> {
                        let t1 = #[trigger] self.trains_view()[k];
                        let t0 = trains0[k];
                        &&& agent_wf(t1, 0)
                        &&& t1.state.id == t0.state.id
                        &&& t1.subunit_x == t0.subunit_x
                        &&& t1.subunit_y == t0.subunit_y
                    },
                forall|i: int|
                    0 <= i < intake_local@.len() ==> passenger_wf(#[trigger] intake_local@[i]),
                forall|i: int| 0 <= i < buffer@.len() ==> passenger_wf(#[trigger] buffer@[i]),
                intakes.len() == self.trains_view().len() + 1,
                intakes[0] == old(self).intake_view(),
                intakes[intakes.len() - 1] == intake_local@,
                all_yields.len() == self.trains_view().len(),
                forall|k: int|
                    0 <= k < self.trains_view().len() ==> agent_decided(
                        *map,
                        trains0[k],
                        self.trains_view()[k],
                        #[trigger] all_yields[k],
                        intakes[k],
                        intakes[k + 1],
                    ),
                buffer@ == all_yields.flatten(),
            decreases pending@.len(),
        {
            let ghost pending_pre = pending@;
            let ghost done = self.trains_view().len() as int;
            let agent = pending.remove(0);
            proof {
                assert(agent == pending_pre[0]);
                assert(pending_pre[0] == trains0[done]);
                assert(agent_wf(trains0[done], 0));
                assert(pending@ =~= pending_pre.drop_first());
                assert(pending@ =~= trains0.subrange(
                    trains0.len() - pending@.len(),
                    trains0.len() as int,
                ));
            }
            let Agent { state, action: _, subunit_x, subunit_y, decider } = agent;
            let ghost decider0 = decider;
            let ghost intake_pre = intake_local@;
            let (new_decider, action) = match decider {
                AgentDecider::Resident(mut rd) => {
                    let ghost rd0 = rd;
                    let a = rd.decide_action(&state, map);
                    proof {
                        let dr = choose|dr: ResidentDraws|
                            #[trigger] resident_draws_ok(*map, dr) && resident_decide_rel(
                                *map,
                                rd0,
                                state.position,
                                dr,
                                rd,
                                a,
                            );
                        assert(resident_decide_rel(*map, rd0, state.position, dr, rd, a)
                            && resident_draws_ok(*map, dr));
                        assert(decider_stepped(
                            *map,
                            decider0,
                            AgentDecider::Resident(rd),
                            a,
                            state.position,
                            intake_pre,
                            intake_local@,
                        ));
                    }
                    (AgentDecider::Resident(rd), a)
                },
                AgentDecider::Train(mut td) => {
                    let ghost td0 = td;
                    let ghost passengers_pre = td.passengers@;
                    let a = td.decide_action(&state, map, &mut intake_local);
                    proof {
                        let dr = choose|dr: TrainDraws|
                            #[trigger] train_decide_rel(
                                td0,
                                state.position,
                                map.dims().x,
                                dr,
                                intake_pre,
                                td,
                                a,
                                intake_local@,
                            );
                        assert(train_decide_rel(
                            td0,
                            state.position,
                            map.dims().x,
                            dr,
                            intake_pre,
                            td,
                            a,
                            intake_local@,
                        ));
                        assert(decider_stepped(
                            *map,
                            decider0,
                            AgentDecider::Train(td),
                            a,
                            state.position,
                            intake_pre,
                            intake_local@,
                        ));
                    }
                    proof {
                        assert forall|i: int|
                            0 <= i < td.passengers@.len() implies passenger_wf(
                            #[trigger] td.passengers@[i],
                        ) by {
                            assert(td.passengers@.contains(td.passengers@[i]));
                            if passengers_pre.contains(td.passengers@[i]) {
                                let j = choose|j: int|
                                    0 <= j < passengers_pre.len() && passengers_pre[j]
                                        == td.passengers@[i];
                                assert(passenger_wf(passengers_pre[j]));
                            } else {
                                let j = choose|j: int|
                                    0 <= j < intake_pre.len() && intake_pre[j]
                                        == td.passengers@[i];
                                assert(passenger_wf(intake_pre[j]));
                            }
                        }
                        assert forall|x: Agent|
                            #[trigger] yielded_agents(a).contains(x) implies passenger_wf(x) by {
                            let j = choose|j: int|
                                0 <= j < passengers_pre.len() && passengers_pre[j] == x;
                            assert(passenger_wf(passengers_pre[j]));
                        }
                    }
                    (AgentDecider::Train(td), a)
                },
            };
            let ghost buffer_pre = buffer@;
            let ghost act_g = action;
            let (new_pos, leaf) = resolve_action(state.position, action, &mut buffer);
            proof {
                assert forall|i: int| 0 <= i < buffer@.len() implies passenger_wf(
                    #[trigger] buffer@[i],
                ) by {
                    if i < buffer_pre.len() {
                        assert(buffer@[i] == buffer_pre[i]);
                    } else {
                        let x = buffer@[i];
                        assert(yielded_agents(act_g)[i - buffer_pre.len()] == x);
                        assert(yielded_agents(act_g).contains(x));
                    }
                }
            }
            let new_agent = Agent {
                state: AgentState { id: state.id, position: new_pos },
                action: leaf,
                subunit_x,
                subunit_y,
                decider: new_decider,
            };
            proof {
                assert(agent_wf(new_agent, 0));
                assert(agent_decided(
                    *map,
                    trains0[done],
                    new_agent,
                    yielded_agents(act_g),
                    intake_pre,
                    intake_local@,
                )) by {
                    assert(decider_stepped(
                        *map,
                        trains0[done].decider,
                        new_agent.decider,
                        act_g,
                        trains0[done].state.position,
                        intake_pre,
                        intake_local@,
                    ));
                }
            }
            let ghost trains_pre_view = self.trains@;
            let ghost intakes_pre = intakes;
            let ghost yields_pre = all_yields;
            self.trains.push(new_agent);
            proof {
                intakes = intakes.push(intake_local@);
                all_yields = all_yields.push(yielded_agents(act_g));
                yields_pre.lemma_flatten_push(yielded_agents(act_g));
                assert(buffer@ =~= all_yields.flatten());
                assert forall|k: int|
                    0 <= k < self.trains_view().len() implies agent_decided(
                    *map,
                    trains0[k],
                    self.trains_view()[k],
                    #[trigger] all_yields[k],
                    intakes[k],
                    intakes[k + 1],
                ) by {
                    if k < done {
                        assert(all_yields[k] == yields_pre[k]);
                        assert(intakes[k] == intakes_pre[k]);
                        assert(intakes[k + 1] == intakes_pre[k + 1]);
                        assert(self.trains_view()[k] == trains_pre_view[k]);
                    } else {
                        assert(self.trains_view()[k] == new_agent);
                        assert(all_yields[k] == yielded_agents(act_g));
                        assert(intakes[k] == intakes_pre[intakes_pre.len() - 1]);
                        assert(intakes[k] == intake_pre);
                        assert(intakes[k + 1] == intake_local@);
                    }
                }
            }
        }

        // Then the residents.
        let mut pending_r: Vec<Agent> = Vec::new();
        core::mem::swap(&mut pending_r, &mut self.residents);
        let ghost residents0 = old(self).residents_view();
        while pending_r.len() > 0
            invariant
                self.tpu() == old(self).tpu(),
                self.ticks() == 0,
                self.intake_view().len() == 0,
                residents0 == old(self).residents_view(),
                self.residents_view().len() + pending_r@.len() == residents0.len(),
                pending_r@ == residents0.subrange(
                    residents0.len() - pending_r@.len(),
                    residents0.len() as int,
                ),
                forall|i: int| 0 <= i < residents0.len() ==> agent_wf(#[trigger] residents0[i], 0),
                forall|k: int|
                    0 <= k < self.residents_view().len() ==> {
                        let r1 = #[trigger] self.residents_view()[k];
                        let r0 = residents0[k];
                        &&& agent_wf(r1, 0)
                        &&& r1.state.id == r0.state.id
                        &&& r1.subunit_x == r0.subunit_x
                        &&& r1.subunit_y == r0.subunit_y
                        &&& r0.decider is Resident ==> r1.state == r0.state
                    },
                self.trains_view().len() == trains0.len(),
                trains0 == old(self).trains_view(),
                forall|k: int|
                    0 <= k < self.trains_view().len() ==> {
                        let t1 = #[trigger] self.trains_view()[k];
                        let t0 = trains0[k];
                        &&& agent_wf(t1, 0)
                        &&& t1.state.id == t0.state.id
                        &&& t1.subunit_x == t0.subunit_x
                        &&& t1.subunit_y == t0.subunit_y
                    },
                forall|i: int| 0 <= i < buffer@.len() ==> passenger_wf(#[trigger] buffer@[i]),
                intakes.len() == trains0.len() + 1,
                intakes[0] == old(self).intake_view(),
                intakes[intakes.len() - 1] == intake_local@,
                forall|k: int|
                    0 <= k < trains0.len() ==> agent_decided(
                        *map,
                        trains0[k],
                        self.trains_view()[k],
                        #[trigger] all_yields[k],
                        intakes[k],
                        intakes[k + 1],
                    ),
                all_yields.len() == trains0.len() + self.residents_view().len(),
                forall|k: int|
                    0 <= k < self.residents_view().len() && residents0[k].decider
                        is Resident ==> agent_decided(
                        *map,
                        residents0[k],
                        self.residents_view()[k],
                        #[trigger] all_yields[trains0.len() + k],
                        Seq::<Agent>::empty(),
                        Seq::<Agent>::empty(),
                    ),
                buffer@ == all_yields.flatten(),
            decreases pending_r@.len(),
        {
            let ghost pending_pre = pending_r@;
            let ghost done = self.residents_view().len() as int;
            let agent = pending_r.remove(0);
            proof {
                assert(agent == pending_pre[0]);
                assert(pending_pre[0] == residents0[done]);
                assert(agent_wf(residents0[done], 0));
                assert(pending_r@ =~= pending_pre.drop_first());
                assert(pending_r@ =~= residents0.subrange(
                    residents0.len() - pending_r@.len(),
                    residents0.len() as int,
                ));
            }
            let Agent { state, action: _, subunit_x, subunit_y, decider } = agent;
            let ghost decider0 = decider;
            let (new_decider, action) = match decider {
                AgentDecider::Resident(mut rd) => {
                    let ghost rd0 = rd;
                    let a = rd.decide_action(&state, map);
                    proof {
                        let dr = choose|dr: ResidentDraws|
                            #[trigger] resident_draws_ok(*map, dr) && resident_decide_rel(
                                *map,
                                rd0,
                                state.position,
                                dr,
                                rd,
                                a,
                            );
                        assert(resident_decide_rel(*map, rd0, state.position, dr, rd, a)
                            && resident_draws_ok(*map, dr));
                        assert(decider_stepped(
                            *map,
                            decider0,
                            AgentDecider::Resident(rd),
                            a,
                            state.position,
                            Seq::<Agent>::empty(),
                            Seq::<Agent>::empty(),
                        ));
                    }
                    (AgentDecider::Resident(rd), a)
                },
                AgentDecider::Train(mut td) => {
                    // A train filed under the resident roster still decides
                    // as a train; it boards nobody (the intake already
                    // emptied into the train roster's pass).
                    let mut no_intake: Vec<Agent> = Vec::new();
                    let ghost no_intake_pre = no_intake@;
                    let ghost passengers_pre = td.passengers@;
                    let a = td.decide_action(&state, map, &mut no_intake);
                    proof {
                        assert forall|i: int|
                            0 <= i < td.passengers@.len() implies passenger_wf(
                            #[trigger] td.passengers@[i],
                        ) by {
                            let x = td.passengers@[i];
                            assert(td.passengers@.contains(x));
                            if no_intake_pre.contains(x) {
                                let j = choose|j: int|
                                    0 <= j < no_intake_pre.len() && no_intake_pre[j] == x;
                                assert(false);
                            }
                            let j = choose|j: int|
                                0 <= j < passengers_pre.len() && passengers_pre[j] == x;
                            assert(passenger_wf(passengers_pre[j]));
                        }
                        assert forall|x: Agent|
                            #[trigger] yielded_agents(a).contains(x) implies passenger_wf(x) by {
                            let j = choose|j: int|
                                0 <= j < passengers_pre.len() && passengers_pre[j] == x;
                            assert(passenger_wf(passengers_pre[j]));
                        }
                    }
                    (AgentDecider::Train(td), a)
                },
            };
            let ghost buffer_pre = buffer@;
            let ghost act_g = action;
            let (new_pos, leaf) = resolve_action(state.position, action, &mut buffer);
            proof {
                assert forall|i: int| 0 <= i < buffer@.len() implies passenger_wf(
                    #[trigger] buffer@[i],
                ) by {
                    if i < buffer_pre.len() {
                        assert(buffer@[i] == buffer_pre[i]);
                    } else {
                        let x = buffer@[i];
                        assert(yielded_agents(act_g)[i - buffer_pre.len()] == x);
                        assert(yielded_agents(act_g).contains(x));
                    }
                }
            }
            let new_agent = Agent {
                state: AgentState { id: state.id, position: new_pos },
                action: leaf,
                subunit_x,
                subunit_y,
                decider: new_decider,
            };
            proof {
                assert(agent_wf(new_agent, 0));
                if residents0[done].decider is Resident {
                    assert(agent_decided(
                        *map,
                        residents0[done],
                        new_agent,
                        yielded_agents(act_g),
                        Seq::<Agent>::empty(),
                        Seq::<Agent>::empty(),
                    )) by {
                        assert(decider_stepped(
                            *map,
                            residents0[done].decider,
                            new_agent.decider,
                            act_g,
                            residents0[done].state.position,
                            Seq::<Agent>::empty(),
                            Seq::<Agent>::empty(),
                        ));
                    }
                }
            }
            let ghost residents_pre_view = self.residents@;
            let ghost yields_pre = all_yields;
            self.residents.push(new_agent);
            proof {
                all_yields = all_yields.push(yielded_agents(act_g));
                yields_pre.lemma_flatten_push(yielded_agents(act_g));
                assert(buffer@ =~= all_yields.flatten());
                assert forall|k: int|
                    0 <= k < self.residents_view().len() && residents0[k].decider
                        is Resident implies agent_decided(
                    *map,
                    residents0[k],
                    self.residents_view()[k],
                    #[trigger] all_yields[trains0.len() + k],
                    Seq::<Agent>::empty(),
                    Seq::<Agent>::empty(),
                ) by {
                    if k < done {
                        assert(all_yields[trains0.len() + k] == yields_pre[trains0.len() + k]);
                        assert(self.residents_view()[k] == residents_pre_view[k]);
                    } else {
                        assert(self.residents_view()[k] == new_agent);
                        assert(all_yields[trains0.len() + k] == yielded_agents(act_g));
                    }
                }
                assert forall|k: int|
                    0 <= k < trains0.len() implies agent_decided(
                    *map,
                    trains0[k],
                    self.trains_view()[k],
                    #[trigger] all_yields[k],
                    intakes[k],
                    intakes[k + 1],
                ) by {
                    assert(all_yields[k] == yields_pre[k]);
                }
            }
        }

        // Merge the buffered yields only now, after every agent decided.
        let ghost processed = self.residents_view();
        let ghost buffer_final = buffer@;
        self.residents.append(&mut buffer);
        core::mem::swap(&mut self.intake, &mut intake_local);
        proof {
            assert(self.residents_view() == processed + buffer_final);
            assert forall|i: int|
                0 <= i < self.residents_view().len() implies agent_wf(
                #[trigger] self.residents_view()[i],
                0,
            ) by {
                if i < processed.len() {
                    assert(self.residents_view()[i] == processed[i]);
                } else {
                    assert(self.residents_view()[i] == buffer_final[i - processed.len()]);
                    lemma_passenger_is_agent(buffer_final[i - processed.len()], 0);
                }
            }
            assert(self.residents_view().subrange(
                processed.len() as int,
                self.residents_view().len() as int,
            ) =~= buffer_final);
            assert(self.intake_view() == intakes[intakes.len() - 1]);
            assert forall|k: int|
                0 <= k < residents0.len() && residents0[k].decider is Resident implies
                agent_decided(
                *map,
                residents0[k],
                self.residents_view()[k],
                #[trigger] all_yields[trains0.len() + k],
                Seq::<Agent>::empty(),
                Seq::<Agent>::empty(),
            ) by {
                assert(self.residents_view()[k] == processed[k]);
            }
            assert forall|k: int|
                0 <= k < trains0.len() implies agent_decided(
                *map,
                trains0[k],
                self.trains_view()[k],
                #[trigger] all_yields[k],
                intakes[k],
                intakes[k + 1],
            ) by {
            }
        }
        (Ghost(intakes), Ghost(all_yields))
    }
}

impl Agents {
    /// One scheduler tick. Every tick the move phase runs: dead agents
    /// leave, and each moving agent gains one grain of sub-cell offset —
    /// or, on the unit's final tick, commits to its next cell with the
    /// offset snapped back to exactly zero, so no drift ever accumulates.
    /// On the final tick the counter then wraps and the decide phase runs.
    pub fn update(&mut self, map: &TileMap)
        requires
            old(self).wf(),
        ensures
            final(self).wf(),
            final(self).tpu() == old(self).tpu(),
            old(self).ticks() + 1 < old(self).tpu() ==> {
                &&& final(self).ticks() == old(self).ticks() + 1
                &&& final(self).residents_view() == spec_move_sweep(
                    old(self).residents_view(),
                    false,
                )
                &&& final(self).trains_view() == spec_move_sweep(old(self).trains_view(), false)
                &&& final(self).intake_view() == old(self).intake_view()
            },
            old(self).ticks() + 1 == old(self).tpu() ==> {
                let swept_r = spec_move_sweep(old(self).residents_view(), true);
                let swept_t = spec_move_sweep(old(self).trains_view(), true);
                &&& final(self).ticks() == 0
                &&& final(self).residents_view().len() >= swept_r.len()
                &&& forall|i: int|
                    0 <= i < swept_r.len() ==> {
                        let r1 = #[trigger] final(self).residents_view()[i];
                        let r0 = swept_r[i];
                        &&& r1.state.id == r0.state.id
                        &&& r1.subunit_x == r0.subunit_x
                        &&& r1.subunit_y == r0.subunit_y
                        &&& r0.decider is Resident ==> r1.state == r0.state
                    }
                &&& forall|j: int|
                    swept_r.len() <= j < final(self).residents_view().len() ==> passenger_wf(
                        #[trigger] final(self).residents_view()[j],
                    )
                &&& final(self).trains_view().len() == swept_t.len()
                &&& forall|i: int|
                    0 <= i < swept_t.len() ==> {
                        let t1 = #[trigger] final(self).trains_view()[i];
                        let t0 = swept_t[i];
                        &&& t1.state.id == t0.state.id
                        &&& t1.subunit_x == t0.subunit_x
                        &&& t1.subunit_y == t0.subunit_y
                    }
            },
    {
        let ghost bound = self.ticks_this_unit;
        self.ticks_this_unit = self.ticks_this_unit + 1;
        let last = self.ticks_this_unit == self.ticks_per_unit;

        // Move phase.
        let mut rs: Vec<Agent> = Vec::new();
        core::mem::swap(&mut rs, &mut self.residents);
        proof {
            assert forall|i: int| 0 <= i < rs@.len() implies agent_wf(#[trigger] rs@[i], bound) by {
                assert(rs@[i] == old(self).residents_view()[i]);
                assert(agent_wf(old(self).residents_view()[i], bound));
            }
        }
        let rs = move_sweep(rs, last, Ghost(bound));
        self.residents = rs;
        let mut ts: Vec<Agent> = Vec::new();
        core::mem::swap(&mut ts, &mut self.trains);
        proof {
            assert forall|i: int| 0 <= i < ts@.len() implies agent_wf(#[trigger] ts@[i], bound) by {
                assert(ts@[i] == old(self).trains_view()[i]);
                assert(agent_wf(old(self).trains_view()[i], bound));
            }
        }
        let ts = move_sweep(ts, last, Ghost(bound));
        self.trains = ts;

        if last {
            // Decide phase: the unit is over.
            self.ticks_this_unit = 0;
            proof {
                assert(self.wf()) by {
                    assert forall|i: int|
                        0 <= i < self.residents_view().len() implies agent_wf(
                        #[trigger] self.residents_view()[i],
                        self.ticks(),
                    ) by {
                        assert(agent_wf(self.residents_view()[i], 0));
                    }
                    assert forall|i: int|
                        0 <= i < self.trains_view().len() implies agent_wf(
                        #[trigger] self.trains_view()[i],
                        self.ticks(),
                    ) by {
                        assert(agent_wf(self.trains_view()[i], 0));
                    }
                    assert forall|i: int|
                        0 <= i < self.intake_view().len() implies passenger_wf(
                        #[trigger] self.intake_view()[i],
                    ) by {
                        assert(passenger_wf(old(self).intake_view()[i]));
                    }
                }
            }
            let _ = self.decide(map);
        } else {
            proof {
                assert(self.wf()) by {
                    assert forall|i: int|
                        0 <= i < self.residents_view().len() implies agent_wf(
                        #[trigger] self.residents_view()[i],
                        self.ticks(),
                    ) by {
                        assert(agent_wf(self.residents_view()[i], (bound + 1) as u64));
                    }
                    assert forall|i: int|
                        0 <= i < self.trains_view().len() implies agent_wf(
                        #[trigger] self.trains_view()[i],
                        self.ticks(),
                    ) by {
                        assert(agent_wf(self.trains_view()[i], (bound + 1) as u64));
                    }
                    assert forall|i: int|
                        0 <= i < self.intake_view().len() implies passenger_wf(
                        #[trigger] self.intake_view()[i],
                    ) by {
                        assert(passenger_wf(old(self).intake_view()[i]));
                    }
                }
            }
        }
    }
}

/// Law: under `Move(East)`, each non-final tick of a unit advances the
/// sub-cell offset by exactly one grain (one `1 / ticks_per_unit` of a
/// cell, never more, never less) and leaves the committed cell alone; the
/// unit's final tick commits the agent one cell east and puts it back on
/// an exact cell, with both offsets exactly zero.
pub proof fn lemma_move_east_exact(a: Agent)
    requires
        a.action == AgentAction::Move(Direction::East),
        a.subunit_x < i64::MAX,
    ensures
        spec_move_agent(a, false).state == a.state,
        spec_move_agent(a, false).subunit_x == a.subunit_x + 1,
        spec_move_agent(a, false).subunit_y == a.subunit_y,
        spec_move_agent(a, true).subunit_x == 0,
        spec_move_agent(a, true).subunit_y == 0,
        spec_move_agent(a, true).state.id == a.state.id,
        a.state.position.x < u64::MAX ==> spec_move_agent(a, true).state.position == (Coord2 {
            x: (a.state.position.x + 1) as u64,
            y: a.state.position.y,
        }),
{
}

/// How a roster looks after inserting `a`: either some agent carried the
/// same identifier and was replaced, or `a` was appended.
pub open spec fn roster_inserted(s0: Seq<Agent>, s1: Seq<Agent>, a: Agent) -> bool {
    if exists|j: int| 0 <= j < s0.len() && #[trigger] s0[j].state.id == a.state.id {
        exists|j: int|
            0 <= j < s0.len() && #[trigger] s0[j].state.id == a.state.id && s1 == s0.remove(
                j,
            ).push(a)
    } else {
        s1 == s0.push(a)
    }
}

/// Whether `x` is `a` itself or an agent the roster `s0` already held.
pub open spec fn from_roster(s0: Seq<Agent>, x: Agent, a: Agent) -> bool {
    x == a || exists|j: int| 0 <= j < s0.len() && #[trigger] s0[j] == x
}

/// Inserts `agent` into a roster, replacing the first entry that carries
/// the same identifier.
fn insert_into_roster(v: &mut Vec<Agent>, agent: Agent)
    ensures
        roster_inserted(old(v)@, final(v)@, agent),
        forall|k: int|
            0 <= k < final(v)@.len() ==> from_roster(old(v)@, #[trigger] final(v)@[k], agent),
{
    let ghost v0 = v@;
    let mut i: usize = 0;
    while i < v.len()
        invariant
            v0 == old(v)@,
            v@ == v0,
            0 <= i <= v@.len(),
            forall|j: int| 0 <= j < i ==> v@[j].state.id != agent.state.id,
        decreases v@.len() - i,
    {
        if v[i].state.id == agent.state.id {
            let ghost iv = i as int;
            proof {
                assert(v0[iv].state.id == agent.state.id);
            }
            let _ = v.remove(i);
            v.push(agent);
            proof {
                assert(v@ == v0.remove(iv).push(agent));
                assert(exists|j: int| 0 <= j < v0.len() && #[trigger] v0[j].state.id
                    == agent.state.id) by {
                    assert(v0[iv].state.id == agent.state.id);
                }
                assert(exists|j: int|
                    0 <= j < v0.len() && #[trigger] v0[j].state.id == agent.state.id && v@
                        == v0.remove(j).push(agent)) by {
                    assert(0 <= iv < v0.len() && v0[iv].state.id == agent.state.id && v@
                        == v0.remove(iv).push(agent));
                }
                assert(roster_inserted(v0, v@, agent));
                assert forall|k: int| 0 <= k < v@.len() implies from_roster(
                    v0,
                    #[trigger] v@[k],
                    agent,
                ) by {
                    if k < v@.len() - 1 {
                        if k < iv {
                            assert(v0[k] == v@[k]);
                        } else {
                            assert(v0[k + 1] == v@[k]);
                        }
                    }
                }
            }
            return;
        }
        i = i + 1;
    }
    v.push(agent);
    proof {
        assert(!(exists|j: int| 0 <= j < v0.len() && #[trigger] v0[j].state.id == agent.state.id))
            by {
            if exists|j: int| 0 <= j < v0.len() && #[trigger] v0[j].state.id == agent.state.id {
                let j = choose|j: int|
                    0 <= j < v0.len() && #[trigger] v0[j].state.id == agent.state.id;
                assert(false);
            }
        }
        assert(roster_inserted(v0, v@, agent));
        assert forall|k: int| 0 <= k < v@.len() implies from_roster(
            v0,
            #[trigger] v@[k],
            agent,
        ) by {
            if k < v@.len() - 1 {
                assert(v0[k] == v@[k]);
            }
        }
    }
}

} // verus!
