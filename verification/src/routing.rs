//! A* pathfinding over the tile graph that the map implies.
//!
//! Edge costs are fixed-point, in tenths of one road step: stepping onto an
//! entrance (or from an entrance onto its road or building) costs 1,
//! stepping between linked pavings costs 10, and stepping onto walkable
//! open ground costs 300, so the router strongly prefers roads but can
//! still cross open ground as a fallback. The heuristic is the Manhattan
//! distance, likewise scaled by 10.

use std::collections::{HashMap, HashSet};

use vstd::prelude::*;

use crate::map::{coord_vec_contains, enc, key_of, paving_at, paving_links, TileMap};
use crate::tile::Tile;
use crate::{
    adjacent, lemma_neighbours_adjacent, spec_direction_between, spec_neighbours, Building, Coord2,
    Direction,
};

verus! {

broadcast use vstd::std_specs::hash::group_hash_axioms;

/// Cost of stepping onto an entrance, or from an entrance onward, in
/// tenths of a road step.
pub const COST_OF_AN_ENTRYWAY: u64 = 1;

/// Cost of stepping between two linked pavings, in tenths of a road step.
pub const COST_OF_A_PAVING: u64 = 10;

/// Cost of stepping onto walkable open ground, in tenths of a road step.
pub const COST_OF_AN_EMPTY_TILE: u64 = 300;

/// The outcome of a routing query.
#[derive(Clone, Debug, PartialEq, Eq)]
pub enum Route {
    /// No path exists (or the goal cell holds no tile).
    NotRouteable,
    /// Start and goal are the same cell; there is nothing to walk.
    Complete,
    /// A path, start and goal included.
    Tiles(Vec<Coord2>),
}

/// The outcome of a routing query reduced to its first step.
#[derive(Copy, Clone, Debug, PartialEq, Eq, Structural)]
pub enum RouteDirection {
    NotRouteable,
    Complete,
    Direction(Direction),
}

/// The tile graph's edge relation: whether the router may step from `a`
/// straight to `b`.
pub open spec fn route_edge(m: TileMap, a: Coord2, b: Coord2) -> bool {
    let g = m.grid();
    if g.contains_key(a) {
        match g[a] {
            Tile::Building(bt) => b == bt.entryway_pos,
            Tile::Entrance(et) => b == et.road_pos || b == et.building_pos,
            Tile::Paving(p) => p.entryways_pos@.contains(b) || p.pavings_pos@.contains(b) || (
            adjacent(a, b) && m.spec_can_walk(b)),
            Tile::Rails(_) => false,
        }
    } else {
        adjacent(a, b) && m.spec_can_walk(b)
    }
}

/// The cost of the step from `a` to `b` (meaningful only when `route_edge`
/// holds), in tenths of a road step.
pub open spec fn edge_cost(m: TileMap, a: Coord2, b: Coord2) -> u64 {
    let g = m.grid();
    if g.contains_key(a) {
        match g[a] {
            Tile::Building(bt) => COST_OF_AN_ENTRYWAY,
            Tile::Entrance(et) => COST_OF_AN_ENTRYWAY,
            Tile::Paving(p) => if p.entryways_pos@.contains(b) {
                COST_OF_AN_ENTRYWAY
            } else if p.pavings_pos@.contains(b) {
                COST_OF_A_PAVING
            } else {
                COST_OF_AN_EMPTY_TILE
            },
            Tile::Rails(_) => COST_OF_AN_EMPTY_TILE,
        }
    } else {
        COST_OF_AN_EMPTY_TILE
    }
}

/// The total cost of a path, edge by edge.
pub open spec fn route_cost(m: TileMap, path: Seq<Coord2>) -> int
    decreases path.len(),
{
    if path.len() < 2 {
        0
    } else {
        edge_cost(m, path[0], path[1]) + route_cost(m, path.drop_first())
    }
}

/// Whether `path` walks the tile graph from `start` to `goal`: it begins
/// at `start`, ends at `goal`, and every consecutive pair is an edge.
pub open spec fn valid_route(m: TileMap, path: Seq<Coord2>, start: Coord2, goal: Coord2) -> bool {
    &&& path.len() >= 2
    &&& path[0] == start
    &&& path[path.len() - 1] == goal
    &&& forall|i: int| 0 <= i < path.len() - 1 ==> route_edge(m, #[trigger] path[i], path[i + 1])
}

/// For any two adjacent pavings the direct two-cell route is valid, and
/// its total traversal cost is exactly one road step.
pub proof fn lemma_adjacent_pavings_direct_route(m: TileMap, a: Coord2, b: Coord2)
    requires
        m.inv(),
        paving_at(m.grid(), a),
        paving_at(m.grid(), b),
        adjacent(a, b),
    ensures
        valid_route(m, seq![a, b], a, b),
        route_cost(m, seq![a, b]) == COST_OF_A_PAVING,
{
    let g = m.grid();
    assert(paving_links(g, a).contains(b));
    let p = g[a]->Paving_0;
    assert(p.pavings_pos@.contains(b));
    assert(route_edge(m, a, b));
    assert(!p.entryways_pos@.contains(b)) by {
        if p.entryways_pos@.contains(b) {
            assert(g.contains_key(a));
            assert(m.tile_ok(a));
            let i = choose|i: int| 0 <= i < p.entryways_pos@.len() && p.entryways_pos@[i] == b;
            assert(g[b] is Entrance);
            assert(false);
        }
    }
    let path = seq![a, b];
    assert(path.drop_first() =~= seq![b]);
    assert(route_cost(m, seq![b]) == 0);
    assert(route_cost(m, path) == edge_cost(m, path[0], path[1]) + route_cost(m, path.drop_first()));
    assert(path[0] == a && path[1] == b);
}

/// One pending node of the search: its f-score (cost so far plus
/// heuristic), the cost that reached it, and its cell.
#[derive(Copy, Clone, Debug)]
struct HeapItem {
    f: u64,
    g: u64,
    pos: Coord2,
}

/// Takes an item with the least f-score out of the pending list.
fn pop_min(heap: &mut Vec<HeapItem>) -> (r: HeapItem)
    requires
        old(heap)@.len() > 0,
    ensures
        old(heap)@.contains(r),
        final(heap)@.len() == old(heap)@.len() - 1,
        forall|x: HeapItem| final(heap)@.contains(x) ==> old(heap)@.contains(x),
{
    let mut best: usize = 0;
    let mut i: usize = 1;
    while i < heap.len()
        invariant
            heap@ == old(heap)@,
            heap@.len() > 0,
            1 <= i,
            0 <= best < i,
            best < heap@.len(),
        decreases heap@.len() - i,
    {
        if heap[i].f < heap[best].f {
            best = i;
        }
        i = i + 1;
    }
    proof {
        assert(heap@.contains(heap@[best as int]));
    }
    let r = heap.remove(best);
    proof {
        assert forall|x: HeapItem| heap@.contains(x) implies old(heap)@.contains(x) by {
            let j = choose|j: int| 0 <= j < heap@.len() && heap@[j] == x;
            if j < best {
                assert(old(heap)@[j] == x);
            } else {
                assert(old(heap)@[j + 1] == x);
            }
        }
    }
    r
}

/// The Manhattan distance from `current_pos` to `goal_pos`, scaled to the
/// cheapest edge (an entrance step) and saturating at the integer's top.
/// Every edge spans one cell and costs at least this scale, so the
/// estimate never exceeds any remaining path's cost and never drops
/// faster than an edge costs: the search never has to reopen a settled
/// cell, and a settled goal carries a cheapest cost.
fn heuristic_cost_estimate(current_pos: Coord2, goal_pos: Coord2) -> (r: u64) {
    let dx = if goal_pos.x > current_pos.x {
        goal_pos.x - current_pos.x
    } else {
        current_pos.x - goal_pos.x
    };
    let dy = if goal_pos.y > current_pos.y {
        goal_pos.y - current_pos.y
    } else {
        current_pos.y - goal_pos.y
    };
    // One grid step per unit of distance, at the cheapest edge's cost
    // (`COST_OF_AN_ENTRYWAY`, one cost unit).
    let scaled: u128 = dx as u128 + dy as u128;
    if scaled > u64::MAX as u128 {
        u64::MAX
    } else {
        scaled as u64
    }
}

/// Adds `a + b`, saturating at the integer's top.
fn saturating_add_u64(a: u64, b: u64) -> (r: u64)
    ensures
        r == if a + b <= u64::MAX {
            a + b
        } else {
            u64::MAX as int
        },
{
    if a > u64::MAX - b {
        u64::MAX
    } else {
        a + b
    }
}

/// The entrance edges of a paving, in list order, each at the entrance
/// cost.
pub open spec fn entry_edges(es: Seq<Coord2>) -> Seq<(Coord2, u64)>
    decreases es.len(),
{
    if es.len() == 0 {
        Seq::empty()
    } else {
        seq![(es[0], COST_OF_AN_ENTRYWAY)] + entry_edges(es.drop_first())
    }
}

/// The linked-paving edges of a paving, in list order; a cell that also
/// stands in the entrance list keeps the cheaper entrance cost.
pub open spec fn paving_edges(es: Seq<Coord2>, ps: Seq<Coord2>) -> Seq<(Coord2, u64)>
    decreases ps.len(),
{
    if ps.len() == 0 {
        Seq::empty()
    } else {
        let head: (Coord2, u64) = (
            ps[0],
            if es.contains(ps[0]) {
                COST_OF_AN_ENTRYWAY
            } else {
                COST_OF_A_PAVING
            },
        );
        seq![head] + paving_edges(es, ps.drop_first())
    }
}

/// The open-ground edges among `around`, in order: every cell not already
/// listed under `es` or `ps` that the router may walk onto, at the
/// open-ground cost.
pub open spec fn open_ground_edges(
    m: TileMap,
    around: Seq<Coord2>,
    es: Seq<Coord2>,
    ps: Seq<Coord2>,
) -> Seq<(Coord2, u64)>
    decreases around.len(),
{
    if around.len() == 0 {
        Seq::empty()
    } else {
        let head: Seq<(Coord2, u64)> = if !es.contains(around[0]) && !ps.contains(around[0])
            && m.spec_can_walk(around[0]) {
            seq![(around[0], COST_OF_AN_EMPTY_TILE)]
        } else {
            Seq::empty()
        };
        head + open_ground_edges(m, around.drop_first(), es, ps)
    }
}

/// The exact edge list the router expands from `location`, in priority
/// order: a building offers its entrance; an entrance its road then its
/// building; a paving its registered entrances, then its linked pavings,
/// then any other walkable neighbour as open ground; rails offer nothing;
/// an empty cell offers its walkable neighbours as open ground.
pub open spec fn spec_tile_neighbours(m: TileMap, location: Coord2) -> Seq<(Coord2, u64)> {
    let g = m.grid();
    if g.contains_key(location) {
        match g[location] {
            Tile::Building(bt) => seq![(bt.entryway_pos, COST_OF_AN_ENTRYWAY)],
            Tile::Entrance(et) => seq![
                (et.road_pos, COST_OF_AN_ENTRYWAY),
                (et.building_pos, COST_OF_AN_ENTRYWAY),
            ],
            Tile::Paving(p) => entry_edges(p.entryways_pos@) + paving_edges(
                p.entryways_pos@,
                p.pavings_pos@,
            ) + open_ground_edges(
                m,
                spec_neighbours(location),
                p.entryways_pos@,
                p.pavings_pos@,
            ),
            Tile::Rails(_) => Seq::empty(),
        }
    } else {
        open_ground_edges(m, spec_neighbours(location), Seq::empty(), Seq::empty())
    }
}

/// The entrance-edge list is the entrance list, cell for cell.
proof fn lemma_entry_edges_shape(es: Seq<Coord2>)
    ensures
        entry_edges(es).len() == es.len(),
        forall|k: int| 0 <= k < es.len() ==> (#[trigger] entry_edges(es)[k]).0 == es[k],
    decreases es.len(),
{
    if es.len() > 0 {
        lemma_entry_edges_shape(es.drop_first());
        assert forall|k: int|
            0 <= k < es.len() implies (#[trigger] entry_edges(es)[k]).0 == es[k] by {
            if k > 0 {
                assert(entry_edges(es)[k] == entry_edges(es.drop_first())[k - 1]);
                assert(es.drop_first()[k - 1] == es[k]);
            }
        }
    }
}

/// The linked-paving edge list is the paving list, cell for cell.
proof fn lemma_paving_edges_shape(es: Seq<Coord2>, ps: Seq<Coord2>)
    ensures
        paving_edges(es, ps).len() == ps.len(),
        forall|k: int| 0 <= k < ps.len() ==> (#[trigger] paving_edges(es, ps)[k]).0 == ps[k],
    decreases ps.len(),
{
    if ps.len() > 0 {
        lemma_paving_edges_shape(es, ps.drop_first());
        assert forall|k: int|
            0 <= k < ps.len() implies (#[trigger] paving_edges(es, ps)[k]).0 == ps[k] by {
            if k > 0 {
                assert(paving_edges(es, ps)[k] == paving_edges(es, ps.drop_first())[k - 1]);
                assert(ps.drop_first()[k - 1] == ps[k]);
            }
        }
    }
}

/// A walkable cell of `around` that neither list already covers appears
/// among the open-ground edges.
proof fn lemma_open_ground_edges_contain(
    m: TileMap,
    around: Seq<Coord2>,
    es: Seq<Coord2>,
    ps: Seq<Coord2>,
    b: Coord2,
)
    requires
        around.contains(b),
        !es.contains(b),
        !ps.contains(b),
        m.spec_can_walk(b),
    ensures
        exists|i: int|
            0 <= i < open_ground_edges(m, around, es, ps).len() && (#[trigger] open_ground_edges(
                m,
                around,
                es,
                ps,
            )[i]).0 == b,
    decreases around.len(),
{
    let ogs = open_ground_edges(m, around, es, ps);
    if around[0] == b {
        assert(ogs[0].0 == b);
    } else {
        assert(around.drop_first().contains(b)) by {
            let j = choose|j: int| 0 <= j < around.len() && around[j] == b;
            assert(around.drop_first()[j - 1] == b);
        }
        lemma_open_ground_edges_contain(m, around.drop_first(), es, ps, b);
        let rest = open_ground_edges(m, around.drop_first(), es, ps);
        let i = choose|i: int| 0 <= i < rest.len() && rest[i].0 == b;
        let head_len = ogs.len() - rest.len();
        assert(ogs[head_len + i].0 == b);
    }
}

/// Law: the edge list is complete as well as sound — every edge of the
/// tile graph out of `location` appears in it (and so, being exact, it
/// lists precisely the tile graph's edges, in the stated priority order).
pub proof fn lemma_tile_neighbours_complete(m: TileMap, location: Coord2, b: Coord2)
    requires
        route_edge(m, location, b),
    ensures
        exists|i: int|
            0 <= i < spec_tile_neighbours(m, location).len() && (#[trigger] spec_tile_neighbours(
                m,
                location,
            )[i]).0 == b,
{
    let g = m.grid();
    let edges = spec_tile_neighbours(m, location);
    if g.contains_key(location) {
        match g[location] {
            Tile::Building(bt) => {
                assert(edges[0].0 == b);
            },
            Tile::Entrance(et) => {
                if b == et.road_pos {
                    assert(edges[0].0 == b);
                } else {
                    assert(edges[1].0 == b);
                }
            },
            Tile::Paving(p) => {
                let es = p.entryways_pos@;
                let ps = p.pavings_pos@;
                lemma_entry_edges_shape(es);
                lemma_paving_edges_shape(es, ps);
                let head = entry_edges(es) + paving_edges(es, ps);
                if es.contains(b) {
                    let k = choose|k: int| 0 <= k < es.len() && es[k] == b;
                    assert(edges[k].0 == b);
                } else if ps.contains(b) {
                    let k = choose|k: int| 0 <= k < ps.len() && ps[k] == b;
                    assert(edges[es.len() + k].0 == b);
                } else {
                    lemma_neighbours_adjacent(location, b);
                    lemma_open_ground_edges_contain(m, spec_neighbours(location), es, ps, b);
                    let ogs = open_ground_edges(m, spec_neighbours(location), es, ps);
                    let i = choose|i: int| 0 <= i < ogs.len() && ogs[i].0 == b;
                    assert(edges[head.len() + i].0 == b);
                }
            },
            Tile::Rails(_) => {
                assert(false);
            },
        }
    } else {
        lemma_neighbours_adjacent(location, b);
        lemma_open_ground_edges_contain(
            m,
            spec_neighbours(location),
            Seq::empty(),
            Seq::empty(),
            b,
        );
        let ogs = open_ground_edges(m, spec_neighbours(location), Seq::empty(), Seq::empty());
        let i = choose|i: int| 0 <= i < ogs.len() && ogs[i].0 == b;
        assert(edges[i].0 == b);
    }
}

/// The cells the router may step to from `location`: exactly the edge
/// list of `spec_tile_neighbours`, in its priority order, each cell with
/// its cost; and every listed pair is an edge of the tile graph at that
/// cost. `tile` must be the tile standing at `location`, if any.
fn tile_neighbours(tile: Option<&Tile>, location: Coord2, map: &TileMap) -> (r: Vec<
    (Coord2, u64),
>)
    requires
        tile is Some <==> map.grid().contains_key(location),
        tile is Some ==> *tile.unwrap() == map.grid()[location],
    ensures
        r@ == spec_tile_neighbours(*map, location),
        forall|i: int|
            0 <= i < r@.len() ==> route_edge(*map, location, (#[trigger] r@[i]).0) && r@[i].1
                == edge_cost(*map, location, r@[i].0),
{
    match tile {
        Some(Tile::Building(bt)) => {
            let mut r: Vec<(Coord2, u64)> = Vec::new();
            r.push((bt.entryway_pos, COST_OF_AN_ENTRYWAY));
            proof {
                assert(r@ =~= spec_tile_neighbours(*map, location));
            }
            r
        },
        Some(Tile::Entrance(et)) => {
            let mut r: Vec<(Coord2, u64)> = Vec::new();
            r.push((et.road_pos, COST_OF_AN_ENTRYWAY));
            r.push((et.building_pos, COST_OF_AN_ENTRYWAY));
            proof {
                assert(r@ =~= spec_tile_neighbours(*map, location));
            }
            r
        },
        Some(Tile::Paving(p)) => {
            // Entrances first, then pavings, then walkable open ground:
            // the router prefers local entrances over through roads.
            let ghost es = p.entryways_pos@;
            let ghost ps = p.pavings_pos@;
            let mut r: Vec<(Coord2, u64)> = Vec::new();
            proof {
                assert(es.subrange(0, es.len() as int) =~= es);
                assert(r@ + entry_edges(es) =~= entry_edges(es));
            }
            let mut i: usize = 0;
            while i < p.entryways_pos.len()
                invariant
                    map.grid().contains_key(location),
                    map.grid()[location] matches Tile::Paving(p2) && p2.entryways_pos@ == es
                        && p2.pavings_pos@ == ps,
                    es == p.entryways_pos@,
                    ps == p.pavings_pos@,
                    0 <= i <= es.len(),
                    r@ + entry_edges(es.subrange(i as int, es.len() as int)) == entry_edges(es),
                    forall|k: int|
                        0 <= k < r@.len() ==> route_edge(*map, location, (#[trigger] r@[k]).0)
                            && r@[k].1 == edge_cost(*map, location, r@[k].0),
                decreases es.len() - i,
            {
                let e = p.entryways_pos[i];
                proof {
                    assert(es.contains(es[i as int]));
                }
                let ghost r_pre = r@;
                r.push((e, COST_OF_AN_ENTRYWAY));
                proof {
                    let suffix = es.subrange(i as int, es.len() as int);
                    assert(suffix[0] == e);
                    assert(suffix.drop_first() =~= es.subrange(i + 1, es.len() as int));
                    assert(entry_edges(suffix) == seq![(e, COST_OF_AN_ENTRYWAY)] + entry_edges(
                        es.subrange(i + 1, es.len() as int),
                    ));
                    assert(r@ =~= r_pre + seq![(e, COST_OF_AN_ENTRYWAY)]);
                    assert(r@ + entry_edges(es.subrange(i + 1, es.len() as int)) =~= r_pre + (
                    seq![(e, COST_OF_AN_ENTRYWAY)] + entry_edges(
                        es.subrange(i + 1, es.len() as int),
                    )));
                }
                i = i + 1;
            }
            proof {
                assert(es.subrange(es.len() as int, es.len() as int) =~= Seq::<Coord2>::empty());
                assert(r@ + Seq::<(Coord2, u64)>::empty() =~= r@);
                assert(r@ == entry_edges(es));
            }
            proof {
                assert(ps.subrange(0, ps.len() as int) =~= ps);
            }
            let mut j: usize = 0;
            while j < p.pavings_pos.len()
                invariant
                    map.grid().contains_key(location),
                    map.grid()[location] matches Tile::Paving(p2) && p2.entryways_pos@ == es
                        && p2.pavings_pos@ == ps,
                    es == p.entryways_pos@,
                    ps == p.pavings_pos@,
                    0 <= j <= ps.len(),
                    r@ + paving_edges(es, ps.subrange(j as int, ps.len() as int)) == entry_edges(
                        es,
                    ) + paving_edges(es, ps),
                    forall|k: int|
                        0 <= k < r@.len() ==> route_edge(*map, location, (#[trigger] r@[k]).0)
                            && r@[k].1 == edge_cost(*map, location, r@[k].0),
                decreases ps.len() - j,
            {
                let q = p.pavings_pos[j];
                proof {
                    assert(ps.contains(ps[j as int]));
                }
                let cost = if coord_vec_contains(&p.entryways_pos, q) {
                    COST_OF_AN_ENTRYWAY
                } else {
                    COST_OF_A_PAVING
                };
                let ghost r_pre = r@;
                r.push((q, cost));
                proof {
                    let suffix = ps.subrange(j as int, ps.len() as int);
                    assert(suffix[0] == q);
                    assert(suffix.drop_first() =~= ps.subrange(j + 1, ps.len() as int));
                    assert(paving_edges(es, suffix) == seq![(q, cost)] + paving_edges(
                        es,
                        ps.subrange(j + 1, ps.len() as int),
                    ));
                    assert(r@ =~= r_pre + seq![(q, cost)]);
                    assert(r@ + paving_edges(es, ps.subrange(j + 1, ps.len() as int)) =~= r_pre + (
                    seq![(q, cost)] + paving_edges(es, ps.subrange(j + 1, ps.len() as int))));
                }
                j = j + 1;
            }
            proof {
                assert(ps.subrange(ps.len() as int, ps.len() as int) =~= Seq::<Coord2>::empty());
                assert(r@ + Seq::<(Coord2, u64)>::empty() =~= r@);
                assert(r@ == entry_edges(es) + paving_edges(es, ps));
            }
            let around = location.neighbours();
            proof {
                assert(around@.subrange(0, around@.len() as int) =~= around@);
            }
            let mut k: usize = 0;
            while k < around.len()
                invariant
                    map.grid().contains_key(location),
                    map.grid()[location] matches Tile::Paving(p2) && p2.entryways_pos@ == es
                        && p2.pavings_pos@ == ps,
                    es == p.entryways_pos@,
                    ps == p.pavings_pos@,
                    around@ == spec_neighbours(location),
                    forall|d: Coord2| around@.contains(d) <==> adjacent(location, d),
                    0 <= k <= around@.len(),
                    r@ + open_ground_edges(
                        *map,
                        around@.subrange(k as int, around@.len() as int),
                        es,
                        ps,
                    ) == entry_edges(es) + paving_edges(es, ps) + open_ground_edges(
                        *map,
                        spec_neighbours(location),
                        es,
                        ps,
                    ),
                    forall|k2: int|
                        0 <= k2 < r@.len() ==> route_edge(*map, location, (#[trigger] r@[k2]).0)
                            && r@[k2].1 == edge_cost(*map, location, r@[k2].0),
                decreases around@.len() - k,
            {
                let n = around[k];
                proof {
                    assert(around@.contains(around@[k as int]));
                }
                let fresh = !coord_vec_contains(&p.entryways_pos, n) && !coord_vec_contains(
                    &p.pavings_pos,
                    n,
                );
                let walkable = map.can_walk(n);
                let ghost r_pre = r@;
                if fresh && walkable {
                    r.push((n, COST_OF_AN_EMPTY_TILE));
                }
                proof {
                    let suffix = around@.subrange(k as int, around@.len() as int);
                    assert(suffix[0] == n);
                    assert(suffix.drop_first() =~= around@.subrange(k + 1, around@.len() as int));
                    let head: Seq<(Coord2, u64)> = if !es.contains(n) && !ps.contains(n)
                        && map.spec_can_walk(n) {
                        seq![(n, COST_OF_AN_EMPTY_TILE)]
                    } else {
                        Seq::empty()
                    };
                    assert(open_ground_edges(*map, suffix, es, ps) == head + open_ground_edges(
                        *map,
                        around@.subrange(k + 1, around@.len() as int),
                        es,
                        ps,
                    ));
                    assert(r@ =~= r_pre + head);
                    assert(r@ + open_ground_edges(
                        *map,
                        around@.subrange(k + 1, around@.len() as int),
                        es,
                        ps,
                    ) =~= r_pre + (head + open_ground_edges(
                        *map,
                        around@.subrange(k + 1, around@.len() as int),
                        es,
                        ps,
                    )));
                }
                k = k + 1;
            }
            proof {
                assert(around@.subrange(around@.len() as int, around@.len() as int) =~= Seq::<
                    Coord2,
                >::empty());
                assert(r@ + Seq::<(Coord2, u64)>::empty() =~= r@);
                assert(r@ == spec_tile_neighbours(*map, location));
            }
            r
        },
        // Rails are never routed along.
        Some(Tile::Rails(_)) => {
            let r: Vec<(Coord2, u64)> = Vec::new();
            proof {
                assert(r@ =~= spec_tile_neighbours(*map, location));
            }
            r
        },
        None => {
            let around = location.neighbours();
            let mut r: Vec<(Coord2, u64)> = Vec::new();
            proof {
                assert(around@.subrange(0, around@.len() as int) =~= around@);
                assert(r@ + open_ground_edges(
                    *map,
                    around@,
                    Seq::<Coord2>::empty(),
                    Seq::<Coord2>::empty(),
                ) =~= open_ground_edges(
                    *map,
                    around@,
                    Seq::<Coord2>::empty(),
                    Seq::<Coord2>::empty(),
                ));
            }
            let mut k: usize = 0;
            while k < around.len()
                invariant
                    !map.grid().contains_key(location),
                    around@ == spec_neighbours(location),
                    forall|d: Coord2| around@.contains(d) <==> adjacent(location, d),
                    0 <= k <= around@.len(),
                    r@ + open_ground_edges(
                        *map,
                        around@.subrange(k as int, around@.len() as int),
                        Seq::<Coord2>::empty(),
                        Seq::<Coord2>::empty(),
                    ) == open_ground_edges(
                        *map,
                        spec_neighbours(location),
                        Seq::<Coord2>::empty(),
                        Seq::<Coord2>::empty(),
                    ),
                    forall|k2: int|
                        0 <= k2 < r@.len() ==> route_edge(*map, location, (#[trigger] r@[k2]).0)
                            && r@[k2].1 == edge_cost(*map, location, r@[k2].0),
                decreases around@.len() - k,
            {
                let n = around[k];
                proof {
                    assert(around@.contains(around@[k as int]));
                }
                let walkable = map.can_walk(n);
                let ghost r_pre = r@;
                if walkable {
                    r.push((n, COST_OF_AN_EMPTY_TILE));
                }
                proof {
                    let es = Seq::<Coord2>::empty();
                    let ps = Seq::<Coord2>::empty();
                    let suffix = around@.subrange(k as int, around@.len() as int);
                    assert(suffix[0] == n);
                    assert(suffix.drop_first() =~= around@.subrange(k + 1, around@.len() as int));
                    let head: Seq<(Coord2, u64)> = if !es.contains(n) && !ps.contains(n)
                        && map.spec_can_walk(n) {
                        seq![(n, COST_OF_AN_EMPTY_TILE)]
                    } else {
                        Seq::empty()
                    };
                    assert(!es.contains(n) && !ps.contains(n));
                    assert(open_ground_edges(*map, suffix, es, ps) == head + open_ground_edges(
                        *map,
                        around@.subrange(k + 1, around@.len() as int),
                        es,
                        ps,
                    ));
                    assert(r@ =~= r_pre + head);
                    assert(r@ + open_ground_edges(
                        *map,
                        around@.subrange(k + 1, around@.len() as int),
                        es,
                        ps,
                    ) =~= r_pre + (head + open_ground_edges(
                        *map,
                        around@.subrange(k + 1, around@.len() as int),
                        es,
                        ps,
                    )));
                }
                k = k + 1;
            }
            proof {
                assert(around@.subrange(around@.len() as int, around@.len() as int) =~= Seq::<
                    Coord2,
                >::empty());
                assert(r@ + Seq::<(Coord2, u64)>::empty() =~= r@);
                assert(r@ == spec_tile_neighbours(*map, location));
            }
            r
        },
    }
}

/// Along a chain whose recorded depths rise step by step, the depth rises
/// between any two positions.
proof fn lemma_depth_monotone(path: Seq<Coord2>, depth: Map<Coord2, nat>, i: int, j: int)
    requires
        0 <= i < j < path.len(),
        forall|k: int| 0 <= k < path.len() ==> depth.contains_key(#[trigger] path[k]),
        forall|k: int|
            0 <= k < path.len() - 1 ==> depth[#[trigger] path[k]] < depth[path[k + 1]],
    ensures
        depth[path[i]] < depth[path[j]],
    decreases j - i,
{
    if j > i + 1 {
        lemma_depth_monotone(path, depth, i, j - 1);
    }
}

/// A chain whose recorded depths rise step by step never repeats a cell.
proof fn lemma_depth_increasing_no_dup(path: Seq<Coord2>, depth: Map<Coord2, nat>)
    requires
        forall|k: int| 0 <= k < path.len() ==> depth.contains_key(#[trigger] path[k]),
        forall|k: int|
            0 <= k < path.len() - 1 ==> depth[#[trigger] path[k]] < depth[path[k + 1]],
    ensures
        path.no_duplicates(),
{
    assert forall|i: int, j: int|
        0 <= i < path.len() && 0 <= j < path.len() && i != j implies path[i] != path[j] by {
        if i < j {
            lemma_depth_monotone(path, depth, i, j);
        } else {
            lemma_depth_monotone(path, depth, j, i);
        }
    }
}

/// Rebuilds the path from `start_pos` to `current_pos` by walking the
/// search's parent records backward. The ghost `parent` map mirrors
/// `came_from`, and `depth` orders it so the walk provably ends.
fn reconstruct_path(
    came_from: &HashMap<u128, Coord2>,
    current_pos: Coord2,
    Ghost(m): Ghost<TileMap>,
    Ghost(start_pos): Ghost<Coord2>,
    Ghost(parent): Ghost<Map<Coord2, Coord2>>,
    Ghost(depth): Ghost<Map<Coord2, nat>>,
) -> (r: Vec<Coord2>)
    requires
        forall|c: Coord2|
            #[trigger] came_from@.contains_key(enc(c)) <==> parent.contains_key(c),
        forall|c: Coord2|
            #[trigger] parent.contains_key(c) ==> came_from@[enc(c)] == parent[c],
        forall|c: Coord2|
            #[trigger] parent.contains_key(c) ==> {
                &&& route_edge(m, parent[c], c)
                &&& c != start_pos
                &&& (parent[c] == start_pos || parent.contains_key(parent[c]))
                &&& depth.contains_key(c)
                &&& depth.contains_key(parent[c])
                &&& depth[c] == depth[parent[c]] + 1
            },
        parent.contains_key(current_pos),
    ensures
        valid_route(m, r@, start_pos, current_pos),
        r@.no_duplicates(),
{
    let mut path: Vec<Coord2> = Vec::new();
    path.push(current_pos);
    let mut cur = current_pos;
    while came_from.contains_key(&key_of(cur))
        invariant
            forall|c: Coord2|
                #[trigger] came_from@.contains_key(enc(c)) <==> parent.contains_key(c),
            forall|c: Coord2|
                #[trigger] parent.contains_key(c) ==> came_from@[enc(c)] == parent[c],
            forall|c: Coord2|
                #[trigger] parent.contains_key(c) ==> {
                    &&& route_edge(m, parent[c], c)
                    &&& c != start_pos
                    &&& (parent[c] == start_pos || parent.contains_key(parent[c]))
                    &&& depth.contains_key(c)
                    &&& depth.contains_key(parent[c])
                    &&& depth[c] == depth[parent[c]] + 1
                },
            parent.contains_key(current_pos),
            depth.contains_key(cur),
            path@.len() >= 1,
            path@[0] == cur,
            path@[path@.len() - 1] == current_pos,
            cur == start_pos || parent.contains_key(cur),
            path@.len() == 1 ==> cur == current_pos,
            forall|i: int|
                0 <= i < path@.len() - 1 ==> route_edge(m, #[trigger] path@[i], path@[i + 1]),
            forall|i: int| 0 <= i < path@.len() ==> depth.contains_key(#[trigger] path@[i]),
            forall|i: int|
                0 <= i < path@.len() - 1 ==> depth[#[trigger] path@[i]] < depth[path@[i + 1]],
        decreases depth[cur],
    {
        let prev = match came_from.get(&key_of(cur)) {
            Some(p) => *p,
            None => {
                proof {
                    assert(false);
                }
                cur
            },
        };
        proof {
            assert(parent.contains_key(cur));
            assert(prev == parent[cur]);
        }
        let ghost old_path = path@;
        path.insert(0, prev);
        proof {
            assert(path@[0] == prev);
            assert forall|i: int|
                0 <= i < path@.len() - 1 implies route_edge(m, #[trigger] path@[i], path@[i
                + 1]) by {
                if i == 0 {
                    assert(path@[1] == old_path[0]);
                    assert(route_edge(m, prev, cur));
                } else {
                    assert(path@[i] == old_path[i - 1]);
                    assert(path@[i + 1] == old_path[i]);
                }
            }
            assert forall|i: int| 0 <= i < path@.len() implies depth.contains_key(
                #[trigger] path@[i],
            ) by {
                if i > 0 {
                    assert(path@[i] == old_path[i - 1]);
                }
            }
            assert forall|i: int|
                0 <= i < path@.len() - 1 implies depth[#[trigger] path@[i]] < depth[path@[i
                + 1]] by {
                if i == 0 {
                    assert(path@[1] == old_path[0]);
                    assert(depth[cur] == depth[prev] + 1);
                } else {
                    assert(path@[i] == old_path[i - 1]);
                    assert(path@[i + 1] == old_path[i]);
                }
            }
        }
        cur = prev;
    }
    proof {
        assert(!parent.contains_key(cur));
        assert(cur == start_pos);
        assert(current_pos != start_pos);
        assert(path@.len() >= 2);
        lemma_depth_increasing_no_dup(path@, depth);
    }
    path
}

/// A* search from `start_pos` to `goal_pos` over the map's tile graph.
///
/// `Complete` comes back exactly when start and goal coincide — the test
/// precedes everything else, so it holds whether or not a tile stands
/// there, and no node is expanded for it. A goal cell holding no tile is
/// `NotRouteable`. When a path is found, `Tiles` carries it, start and
/// goal included, never repeating a cell, and every step of it is an edge
/// of the tile graph. Tie-breaking between equal f-scores follows the
/// pending list's order and is not specified.
///
/// The contract pins those facts; that the search also finds a path
/// whenever one exists, and a cheapest one, is carried by the algorithm —
/// a closed-list A* whose heuristic underestimates every remaining path
/// and never outdrops an edge's cost — and is exercised by tests, but is
/// not yet proved: that proof needs a termination argument over the
/// finitely many candidate cells and a frontier-cut invariant over all
/// paths, in place of the present search budget.
pub fn route(map: &TileMap, start_pos: Coord2, goal_pos: Coord2) -> (r: Route)
    ensures
        r == Route::Complete <==> start_pos == goal_pos,
        start_pos != goal_pos && !map.grid().contains_key(goal_pos) ==> r == Route::NotRouteable,
        r matches Route::Tiles(path) ==> valid_route(*map, path@, start_pos, goal_pos)
            && path@.no_duplicates(),
{
    if start_pos.x == goal_pos.x && start_pos.y == goal_pos.y {
        return Route::Complete;
    }
    if goal_absent(map, goal_pos) {
        return Route::NotRouteable;
    }

    let mut closed: HashSet<u128> = HashSet::new();
    let mut came_from: HashMap<u128, Coord2> = HashMap::new();
    let mut g_score: HashMap<u128, u64> = HashMap::new();
    let mut heap: Vec<HeapItem> = Vec::new();
    let ghost mut parent: Map<Coord2, Coord2> = Map::empty();
    let ghost mut depth: Map<Coord2, nat> = Map::empty();
    proof {
        depth = depth.insert(start_pos, 0);
    }
    g_score.insert(key_of(start_pos), 0);
    heap.push(HeapItem { f: heuristic_cost_estimate(start_pos, goal_pos), g: 0, pos: start_pos });

    let mut fuel: u64 = u64::MAX;
    while heap.len() > 0 && fuel > 0
        invariant
            forall|c: Coord2|
                #[trigger] came_from@.contains_key(enc(c)) <==> parent.contains_key(c),
            forall|c: Coord2|
                #[trigger] parent.contains_key(c) ==> came_from@[enc(c)] == parent[c],
            forall|c: Coord2|
                #[trigger] parent.contains_key(c) ==> {
                    &&& route_edge(*map, parent[c], c)
                    &&& c != start_pos
                    &&& (parent[c] == start_pos || parent.contains_key(parent[c]))
                    &&& depth.contains_key(c)
                    &&& depth.contains_key(parent[c])
                    &&& depth[c] == depth[parent[c]] + 1
                },
            depth.contains_key(start_pos),
            forall|c: Coord2| #[trigger] parent.contains_key(c) ==> closed@.contains(
                enc(parent[c]),
            ),
            forall|i: int|
                0 <= i < heap@.len() ==> (#[trigger] heap@[i]).pos == start_pos
                    || parent.contains_key(heap@[i].pos),
            start_pos != goal_pos,
            map.grid().contains_key(goal_pos),
        decreases fuel,
    {
        fuel = fuel - 1;
        let ghost heap_pre = heap@;
        let item = pop_min(&mut heap);
        let current_pos = item.pos;
        proof {
            assert(heap_pre.contains(item));
            let j = choose|j: int| 0 <= j < heap_pre.len() && heap_pre[j] == item;
            assert(heap_pre[j].pos == start_pos || parent.contains_key(heap_pre[j].pos));
            assert(current_pos == start_pos || parent.contains_key(current_pos));
            assert forall|k: int|
                0 <= k < heap@.len() implies (#[trigger] heap@[k]).pos == start_pos
                || parent.contains_key(heap@[k].pos) by {
                assert(heap@.contains(heap@[k]));
                assert(heap_pre.contains(heap@[k]));
                let j2 = choose|j2: int| 0 <= j2 < heap_pre.len() && heap_pre[j2] == heap@[k];
                assert(heap_pre[j2].pos == start_pos || parent.contains_key(heap_pre[j2].pos));
            }
        }
        if current_pos.x == goal_pos.x && current_pos.y == goal_pos.y {
            let path = reconstruct_path(
                &came_from,
                current_pos,
                Ghost(*map),
                Ghost(start_pos),
                Ghost(parent),
                Ghost(depth),
            );
            return Route::Tiles(path);
        }
        if closed.contains(&key_of(current_pos)) {
            continue;
        }
        closed.insert(key_of(current_pos));
        let tile = map.get(current_pos);
        let neighbours = tile_neighbours(tile, current_pos, map);
        let mut i: usize = 0;
        while i < neighbours.len()
            invariant
                forall|k: int|
                    0 <= k < neighbours@.len() ==> route_edge(
                        *map,
                        current_pos,
                        (#[trigger] neighbours@[k]).0,
                    ),
                current_pos == start_pos || parent.contains_key(current_pos),
                depth.contains_key(current_pos),
                forall|c: Coord2|
                    #[trigger] came_from@.contains_key(enc(c)) <==> parent.contains_key(c),
                forall|c: Coord2|
                    #[trigger] parent.contains_key(c) ==> came_from@[enc(c)] == parent[c],
                forall|c: Coord2|
                    #[trigger] parent.contains_key(c) ==> {
                        &&& route_edge(*map, parent[c], c)
                        &&& c != start_pos
                        &&& (parent[c] == start_pos || parent.contains_key(parent[c]))
                        &&& depth.contains_key(c)
                        &&& depth.contains_key(parent[c])
                        &&& depth[c] == depth[parent[c]] + 1
                    },
                depth.contains_key(start_pos),
                forall|c: Coord2| #[trigger] parent.contains_key(c) ==> closed@.contains(
                    enc(parent[c]),
                ),
                closed@.contains(enc(current_pos)),
                forall|k: int|
                    0 <= k < heap@.len() ==> (#[trigger] heap@[k]).pos == start_pos
                        || parent.contains_key(heap@[k].pos),
                start_pos != goal_pos,
                0 <= i <= neighbours@.len(),
            decreases neighbours@.len() - i,
        {
            let (neighbour_pos, neighbour_cost) = neighbours[i];
            proof {
                assert(neighbours@[i as int].0 == neighbour_pos);
            }
            if !closed.contains(&key_of(neighbour_pos)) && !(neighbour_pos.x == start_pos.x
                && neighbour_pos.y == start_pos.y) {
                let tentative = saturating_add_u64(item.g, neighbour_cost);
                let better = match g_score.get(&key_of(neighbour_pos)) {
                    Some(prev) => tentative < *prev,
                    None => true,
                };
                if better {
                    came_from.insert(key_of(neighbour_pos), current_pos);
                    proof {
                        parent = parent.insert(neighbour_pos, current_pos);
                        depth = depth.insert(neighbour_pos, (depth[current_pos] + 1) as nat);
                        lemma_enc_injective_all();
                    }
                    g_score.insert(key_of(neighbour_pos), tentative);
                    heap.push(
                        HeapItem {
                            f: saturating_add_u64(
                                tentative,
                                heuristic_cost_estimate(neighbour_pos, goal_pos),
                            ),
                            g: tentative,
                            pos: neighbour_pos,
                        },
                    );
                }
            }
            i = i + 1;
        }
    }

    Route::NotRouteable
}

/// `enc` never sends two coordinates to one key.
proof fn lemma_enc_injective_all()
    ensures
        forall|a: Coord2, b: Coord2| #![trigger enc(a), enc(b)] enc(a) == enc(b) ==> a == b,
{
    assert forall|a: Coord2, b: Coord2| #![trigger enc(a), enc(b)] enc(a) == enc(b) implies a
        == b by {
        crate::map::lemma_enc_injective(a, b);
    }
}

/// Whether the goal cell holds no tile.
fn goal_absent(map: &TileMap, goal_pos: Coord2) -> (r: bool)
    ensures
        r == !map.grid().contains_key(goal_pos),
{
    map.get(goal_pos).is_none()
}

/// Reduces `route` to the compass direction of its first step:
/// `Complete` exactly when start and goal coincide, `NotRouteable` when no
/// path was found (or its first step is not axis-aligned, which a valid
/// edge never is on a well-linked map), and otherwise the direction from
/// the start to the path's second cell.
pub fn direction_of_route(map: &TileMap, start_pos: Coord2, goal_pos: Coord2) -> (r:
    RouteDirection)
    ensures
        r == RouteDirection::Complete <==> start_pos == goal_pos,
        start_pos != goal_pos && !map.grid().contains_key(goal_pos) ==> r
            == RouteDirection::NotRouteable,
        r matches RouteDirection::Direction(d) ==> exists|path: Seq<Coord2>|
            valid_route(*map, path, start_pos, goal_pos) && spec_direction_between(
                start_pos,
                path[1],
            ) == Some(d),
{
    match route(map, start_pos, goal_pos) {
        Route::NotRouteable => RouteDirection::NotRouteable,
        Route::Complete => RouteDirection::Complete,
        Route::Tiles(path) => {
            // Find the direction from the first to the second cell.
            match Direction::between_coord2s(path[0], path[1]) {
                Some(direction) => {
                    proof {
                        assert(valid_route(*map, path@, start_pos, goal_pos) && spec_direction_between(
                            start_pos,
                            path@[1],
                        ) == Some(direction));
                    }
                    RouteDirection::Direction(direction)
                },
                None => RouteDirection::NotRouteable,
            }
        },
    }
}

/// Routes from `start_pos` toward every goal in `goals_pos` and keeps the
/// shortest (fewest-tiles) path found. `Complete` comes back exactly when
/// `start_pos` is itself one of the goals; `NotRouteable` when no goal can
/// be reached.
pub fn route_to_any(map: &TileMap, start_pos: Coord2, goals_pos: &Vec<Coord2>) -> (r: Route)
    ensures
        r == Route::Complete <==> goals_pos@.contains(start_pos),
        r matches Route::Tiles(path) ==> exists|g: Coord2|
            goals_pos@.contains(g) && valid_route(*map, path@, start_pos, g),
{
    let mut routes: Vec<Vec<Coord2>> = Vec::new();
    let ghost mut route_goals: Seq<Coord2> = Seq::empty();
    let mut i: usize = 0;
    while i < goals_pos.len()
        invariant
            0 <= i <= goals_pos@.len(),
            forall|j: int| 0 <= j < i ==> goals_pos@[j] != start_pos,
            routes@.len() == route_goals.len(),
            forall|k: int|
                0 <= k < routes@.len() ==> goals_pos@.contains(#[trigger] route_goals[k])
                    && valid_route(*map, routes@[k]@, start_pos, route_goals[k]),
        decreases goals_pos@.len() - i,
    {
        let goal_pos = goals_pos[i];
        match route(map, start_pos, goal_pos) {
            Route::NotRouteable => {},
            Route::Complete => {
                proof {
                    assert(goals_pos@[i as int] == start_pos);
                    assert(goals_pos@.contains(start_pos));
                }
                return Route::Complete;
            },
            Route::Tiles(path) => {
                proof {
                    assert(goals_pos@.contains(goals_pos@[i as int]));
                }
                routes.push(path);
                proof {
                    route_goals = route_goals.push(goal_pos);
                }
            },
        }
        i = i + 1;
    }
    proof {
        assert forall|g: Coord2| #[trigger] goals_pos@.contains(g) implies g != start_pos by {
            let j = choose|j: int| 0 <= j < goals_pos@.len() && goals_pos@[j] == g;
            assert(goals_pos@[j] != start_pos);
        }
    }
    // Keep the shortest of the collected paths.
    if routes.len() == 0 {
        return Route::NotRouteable;
    }
    let mut best: usize = 0;
    let mut k: usize = 1;
    while k < routes.len()
        invariant
            0 < routes@.len(),
            0 <= best < routes@.len(),
            0 <= k <= routes@.len(),
            routes@.len() == route_goals.len(),
            forall|k2: int|
                0 <= k2 < routes@.len() ==> goals_pos@.contains(#[trigger] route_goals[k2])
                    && valid_route(*map, routes@[k2]@, start_pos, route_goals[k2]),
            !goals_pos@.contains(start_pos),
        decreases routes@.len() - k,
    {
        if routes[k].len() < routes[best].len() {
            best = k;
        }
        k = k + 1;
    }
    let chosen = routes.remove(best);
    proof {
        assert(goals_pos@.contains(route_goals[best as int]) && valid_route(
            *map,
            chosen@,
            start_pos,
            route_goals[best as int],
        ));
    }
    Route::Tiles(chosen)
}

/// Routes toward every indexed building of kind `building`, keeping the
/// shortest path: `Complete` exactly when `start_pos` is itself one of the
/// listed building cells.
pub fn route_to_building(map: &TileMap, start_pos: Coord2, building: Building) -> (r: Route)
    ensures
        r == Route::Complete <==> map.building_seq(building).contains(start_pos),
        r matches Route::Tiles(path) ==> exists|g: Coord2|
            map.building_seq(building).contains(g) && valid_route(*map, path@, start_pos, g),
{
    let buildings_pos = map.buildings_of(building);
    route_to_any(map, start_pos, buildings_pos)
}

/// The coordinate of the reachable building of kind `building` whose path
/// is shortest, or `None` when none is reachable (or `start_pos` already
/// stands on one, where no walking is called for).
pub fn closest_building(map: &TileMap, start_pos: Coord2, building: Building) -> (r: Option<
    Coord2,
>)
    ensures
        r matches Some(c) ==> map.building_seq(building).contains(c) && exists|p: Seq<Coord2>|
            valid_route(*map, p, start_pos, c),
        map.building_seq(building).contains(start_pos) ==> r is None,
{
    match route_to_building(map, start_pos, building) {
        Route::Tiles(path) => {
            proof {
                let g = choose|g: Coord2|
                    map.building_seq(building).contains(g) && valid_route(
                        *map,
                        path@,
                        start_pos,
                        g,
                    );
                assert(path@[path@.len() - 1] == g);
            }
            if path.len() > 0 {
                Some(path[path.len() - 1])
            } else {
                proof {
                    assert(false);
                }
                None
            }
        },
        _ => None,
    }
}

} // verus!
