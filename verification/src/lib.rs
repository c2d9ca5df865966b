//! A small settlement simulation: a grid of road and building tiles, an
//! A* router over that grid, per-agent decision state machines, and a tick
//! scheduler that reconciles decisions with sub-tile motion.
//!
//! The grid and its tiles live in [`map`], the pathfinder in [`routing`],
//! and the agents, their deciders and the tick scheduler in [`agents`].

use vstd::prelude::*;

pub mod agents;
pub mod entropy;
pub mod map;
pub mod routing;
pub mod tile;

verus! {

/// An unsigned integer grid coordinate.
#[derive(Copy, Clone, Debug, PartialEq, Eq, Structural, Hash)]
pub struct Coord2 {
    pub x: u64,
    pub y: u64,
}

/// Two coordinates at Manhattan distance exactly one.
pub open spec fn adjacent(a: Coord2, b: Coord2) -> bool {
    ||| (a.x == b.x && (a.y + 1 == b.y || b.y + 1 == a.y))
    ||| (a.y == b.y && (a.x + 1 == b.x || b.x + 1 == a.x))
}

/// The 4-neighbours of `c` that exist on the unsigned grid, in the order
/// north, west, south, east.
pub open spec fn spec_neighbours(c: Coord2) -> Seq<Coord2> {
    let north: Seq<Coord2> = if c.y > 0 {
        seq![Coord2 { x: c.x, y: (c.y - 1) as u64 }]
    } else {
        Seq::empty()
    };
    let west: Seq<Coord2> = if c.x > 0 {
        seq![Coord2 { x: (c.x - 1) as u64, y: c.y }]
    } else {
        Seq::empty()
    };
    let south: Seq<Coord2> = if c.y < u64::MAX {
        seq![Coord2 { x: c.x, y: (c.y + 1) as u64 }]
    } else {
        Seq::empty()
    };
    let east: Seq<Coord2> = if c.x < u64::MAX {
        seq![Coord2 { x: (c.x + 1) as u64, y: c.y }]
    } else {
        Seq::empty()
    };
    north + west + south + east
}

/// Membership in `spec_neighbours` is exactly adjacency.
pub proof fn lemma_neighbours_adjacent(c: Coord2, d: Coord2)
    ensures
        spec_neighbours(c).contains(d) <==> adjacent(c, d),
{
    if adjacent(c, d) {
        let s = spec_neighbours(c);
        if c.x == d.x && d.y + 1 == c.y {
            assert(s[0] == d);
        } else if c.y == d.y && d.x + 1 == c.x {
            assert(s[if c.y > 0 { 1int } else { 0int }] == d);
        } else if c.x == d.x && c.y + 1 == d.y {
            let i = (if c.y > 0 { 1int } else { 0int }) + (if c.x > 0 { 1int } else { 0int });
            assert(s[i] == d);
        } else {
            assert(s[s.len() - 1] == d);
        }
    }
}

/// The neighbour sequence never repeats a cell.
pub proof fn lemma_neighbours_no_dup(c: Coord2)
    ensures
        spec_neighbours(c).no_duplicates(),
{
    let s = spec_neighbours(c);
    assert forall|i: int, j: int| 0 <= i < s.len() && 0 <= j < s.len() && i != j implies s[i]
        != s[j] by {
    }
}

impl Coord2 {
    /// Swaps the two components.
    pub fn flip(&self) -> (r: Coord2)
        ensures
            r.x == self.y,
            r.y == self.x,
    {
        Coord2 { x: self.y, y: self.x }
    }

    /// The 4-neighbours that exist on the unsigned grid (a component never
    /// leaves `0..=u64::MAX`), in the order north, west, south, east.
    pub fn neighbours(&self) -> (r: Vec<Coord2>)
        ensures
            r@ == spec_neighbours(*self),
            forall|d: Coord2| r@.contains(d) <==> adjacent(*self, d),
    {
        let mut neighbours: Vec<Coord2> = Vec::with_capacity(4);
        if self.y > 0 {
            neighbours.push(Coord2 { x: self.x, y: self.y - 1 });
        }
        if self.x > 0 {
            neighbours.push(Coord2 { x: self.x - 1, y: self.y });
        }
        if self.y < u64::MAX {
            neighbours.push(Coord2 { x: self.x, y: self.y + 1 });
        }
        if self.x < u64::MAX {
            neighbours.push(Coord2 { x: self.x + 1, y: self.y });
        }
        proof {
            assert(neighbours@ =~= spec_neighbours(*self));
            assert forall|d: Coord2| neighbours@.contains(d) <==> adjacent(*self, d) by {
                lemma_neighbours_adjacent(*self, d);
            }
        }
        neighbours
    }
}

/// One of the two grid axes.
#[derive(Copy, Clone, Debug, PartialEq, Eq, Structural, Hash)]
pub enum Orientation {
    Vertical,
    Horizontal,
}

impl Orientation {
    /// The orientation of the axis-aligned offset `location`, if it lies on
    /// exactly one axis and is not the origin.
    pub fn from_coord2(location: Coord2) -> (r: Option<Orientation>)
        ensures
            r == Some(Orientation::Vertical) <==> location.x == 0 && location.y > 0,
            r == Some(Orientation::Horizontal) <==> location.x > 0 && location.y == 0,
            r is None <==> (location.x == 0) == (location.y == 0),
    {
        if location.x == 0 && location.y > 0 {
            Some(Orientation::Vertical)
        } else if location.x > 0 && location.y == 0 {
            Some(Orientation::Horizontal)
        } else {
            None
        }
    }

    /// The orientation of the line through `a` and `b`, if they differ along
    /// exactly one axis.
    pub fn between_coord2s(a: Coord2, b: Coord2) -> (r: Option<Orientation>)
        ensures
            r == Some(Orientation::Vertical) <==> a.x == b.x && a.y != b.y,
            r == Some(Orientation::Horizontal) <==> a.x != b.x && a.y == b.y,
            r is None <==> (a.x == b.x) == (a.y == b.y),
    {
        if a.x == b.x && a.y != b.y {
            Some(Orientation::Vertical)
        } else if a.x != b.x && a.y == b.y {
            Some(Orientation::Horizontal)
        } else {
            None
        }
    }

    /// The unit offset along this orientation's axis.
    pub fn as_offset(&self) -> (r: Coord2)
        ensures
            *self == Orientation::Vertical ==> r == (Coord2 { x: 0, y: 1 }),
            *self == Orientation::Horizontal ==> r == (Coord2 { x: 1, y: 0 }),
    {
        if *self == Orientation::Vertical {
            Coord2 { x: 0, y: 1 }
        } else {
            Coord2 { x: 1, y: 0 }
        }
    }
}

/// A compass direction on the grid; north is toward smaller `y`.
#[derive(Copy, Clone, Debug, PartialEq, Eq, Structural, Hash)]
pub enum Direction {
    North,
    East,
    South,
    West,
}

/// The direction from `a` toward `b`, if they differ along exactly one axis
/// (at any distance).
pub open spec fn spec_direction_between(a: Coord2, b: Coord2) -> Option<Direction> {
    if (a.x == b.x) == (a.y == b.y) {
        None
    } else if a.x > b.x {
        Some(Direction::West)
    } else if a.x < b.x {
        Some(Direction::East)
    } else if a.y > b.y {
        Some(Direction::North)
    } else {
        Some(Direction::South)
    }
}

impl Direction {
    /// The direction from `a` toward `b`, if they differ along exactly one
    /// axis (at any distance).
    pub fn between_coord2s(a: Coord2, b: Coord2) -> (r: Option<Direction>)
        ensures
            r == spec_direction_between(a, b),
            r is None <==> (a.x == b.x) == (a.y == b.y),
            r == Some(Direction::West) <==> a.y == b.y && a.x > b.x,
            r == Some(Direction::East) <==> a.y == b.y && a.x < b.x,
            r == Some(Direction::North) <==> a.x == b.x && a.y > b.y,
            r == Some(Direction::South) <==> a.x == b.x && a.y < b.y,
    {
        if (a.x == b.x && a.y == b.y) || (a.x != b.x && a.y != b.y) {
            None
        } else if a.x > b.x {
            Some(Direction::West)
        } else if a.x < b.x {
            Some(Direction::East)
        } else if a.y > b.y {
            Some(Direction::North)
        } else {
            Some(Direction::South)
        }
    }

    /// The signed unit offset of one step in this direction.
    pub fn as_offset(&self) -> (r: (i64, i64))
        ensures
            r == spec_direction_offset(*self),
    {
        match *self {
            Direction::North => (0, -1),
            Direction::East => (1, 0),
            Direction::South => (0, 1),
            Direction::West => (-1, 0),
        }
    }
}

/// The signed unit offset of one step in direction `d`.
pub open spec fn spec_direction_offset(d: Direction) -> (i64, i64) {
    match d {
        Direction::North => (0int as i64, -1int as i64),
        Direction::East => (1int as i64, 0int as i64),
        Direction::South => (0int as i64, 1int as i64),
        Direction::West => (-1int as i64, 0int as i64),
    }
}

/// A straight run of cells: `length` cells starting at `start`, advancing
/// along `orientation`.
#[derive(Copy, Clone, Debug, PartialEq, Eq, Structural, Hash)]
pub struct Path {
    pub start: Coord2,
    pub orientation: Orientation,
    pub length: u64,
}

impl Path {
    /// All cells of the path stay on the unsigned grid, with room for the
    /// one-past-the-end cell that `end` names.
    pub open spec fn wf(self) -> bool {
        match self.orientation {
            Orientation::Vertical => self.start.y + self.length <= u64::MAX,
            Orientation::Horizontal => self.start.x + self.length <= u64::MAX,
        }
    }

    /// The `k`-th cell of the path.
    pub open spec fn cell_at(self, k: int) -> Coord2 {
        match self.orientation {
            Orientation::Vertical => Coord2 { x: self.start.x, y: (self.start.y + k) as u64 },
            Orientation::Horizontal => Coord2 { x: (self.start.x + k) as u64, y: self.start.y },
        }
    }

    /// Whether `c` is one of the path's cells.
    pub open spec fn spec_contains(self, c: Coord2) -> bool {
        exists|k: int| 0 <= k < self.length && self.cell_at(k) == c
    }

    /// A path of length zero covers no cells.
    pub fn is_empty(&self) -> (r: bool)
        ensures
            r == (self.length == 0),
    {
        self.length == 0
    }

    /// Whether `target` lies on the path.
    pub fn contains(&self, target: Coord2) -> (r: bool)
        requires
            self.wf(),
        ensures
            r == self.spec_contains(target),
    {
        let mut k: u64 = 0;
        while k < self.length
            invariant
                0 <= k <= self.length,
                self.wf(),
                forall|j: int| 0 <= j < k ==> self.cell_at(j) != target,
            decreases self.length - k,
        {
            let cell = match self.orientation {
                Orientation::Vertical => Coord2 { x: self.start.x, y: self.start.y + k },
                Orientation::Horizontal => Coord2 { x: self.start.x + k, y: self.start.y },
            };
            assert(cell == self.cell_at(k as int));
            if cell.x == target.x && cell.y == target.y {
                return true;
            }
            k = k + 1;
        }
        false
    }

    /// The path's cells, first to last.
    pub fn coords(&self) -> (r: Vec<Coord2>)
        requires
            self.wf(),
        ensures
            r@.len() == self.length,
            forall|k: int| 0 <= k < self.length ==> r@[k] == self.cell_at(k),
    {
        let mut coords: Vec<Coord2> = Vec::new();
        let mut k: u64 = 0;
        while k < self.length
            invariant
                0 <= k <= self.length,
                self.wf(),
                coords@.len() == k,
                forall|j: int| 0 <= j < k ==> coords@[j] == self.cell_at(j),
            decreases self.length - k,
        {
            let cell = match self.orientation {
                Orientation::Vertical => Coord2 { x: self.start.x, y: self.start.y + k },
                Orientation::Horizontal => Coord2 { x: self.start.x + k, y: self.start.y },
            };
            coords.push(cell);
            k = k + 1;
        }
        coords
    }

    /// Cells adjacent to the path but not on it: exactly those, every one
    /// of them listed. The result may repeat a cell that borders the path
    /// more than once.
    #[verifier::rlimit(30)]
    pub fn neighbours(&self) -> (r: Vec<Coord2>)
        requires
            self.wf(),
        ensures
            forall|i: int|
                0 <= i < r@.len() ==> !self.spec_contains(r@[i]) && exists|k: int|
                    0 <= k < self.length && adjacent(self.cell_at(k), r@[i]),
            forall|d: Coord2, k: int|
                0 <= k < self.length && #[trigger] adjacent(self.cell_at(k), d)
                    && !self.spec_contains(d) ==> r@.contains(d),
    {
        let cells = self.coords();
        let mut result: Vec<Coord2> = Vec::new();
        let mut i: usize = 0;
        while i < cells.len()
            invariant
                self.wf(),
                cells@.len() == self.length,
                forall|k: int| 0 <= k < self.length ==> cells@[k] == self.cell_at(k),
                forall|j: int|
                    0 <= j < result@.len() ==> !self.spec_contains(result@[j]) && exists|k: int|
                        0 <= k < self.length && adjacent(self.cell_at(k), result@[j]),
                forall|d: Coord2, k: int|
                    0 <= k < i && #[trigger] adjacent(self.cell_at(k), d) && !self.spec_contains(d)
                        ==> result@.contains(d),
            decreases cells@.len() - i,
        {
            let around = cells[i].neighbours();
            let mut j: usize = 0;
            while j < around.len()
                invariant
                    self.wf(),
                    0 <= i < cells@.len(),
                    0 <= j <= around@.len(),
                    cells@.len() == self.length,
                    forall|k: int| 0 <= k < self.length ==> cells@[k] == self.cell_at(k),
                    forall|d: Coord2| around@.contains(d) <==> adjacent(cells@[i as int], d),
                    forall|j2: int|
                        0 <= j2 < result@.len() ==> !self.spec_contains(result@[j2]) && exists|
                            k: int,
                        |
                            0 <= k < self.length && adjacent(self.cell_at(k), result@[j2]),
                    forall|d: Coord2, k: int|
                        0 <= k < i && #[trigger] adjacent(self.cell_at(k), d)
                            && !self.spec_contains(d) ==> result@.contains(d),
                    forall|j2: int|
                        0 <= j2 < j && !self.spec_contains(#[trigger] around@[j2])
                            ==> result@.contains(around@[j2]),
                decreases around@.len() - j,
            {
                let candidate = around[j];
                let ghost result_pre = result@;
                if !self.contains(candidate) {
                    proof {
                        assert(around@.contains(candidate));
                        assert(adjacent(self.cell_at(i as int), candidate));
                        assert(exists|k: int|
                            0 <= k < self.length && adjacent(self.cell_at(k), candidate));
                    }
                    result.push(candidate);
                    proof {
                        assert(result@[result@.len() - 1] == candidate);
                        assert forall|d: Coord2| result_pre.contains(d) implies result@.contains(
                            d,
                        ) by {
                            let x = choose|x: int| 0 <= x < result_pre.len() && result_pre[x] == d;
                            assert(result@[x] == d);
                        }
                    }
                }
                j = j + 1;
            }
            proof {
                assert forall|d: Coord2, k: int|
                    0 <= k < i + 1 && #[trigger] adjacent(self.cell_at(k), d)
                        && !self.spec_contains(d) implies result@.contains(d) by {
                    if k == i {
                        assert(around@.contains(d));
                        let j2 = choose|j2: int| 0 <= j2 < around@.len() && around@[j2] == d;
                        assert(result@.contains(around@[j2]));
                    }
                }
            }
            i = i + 1;
        }
        proof {
            assert forall|i2: int| 0 <= i2 < result@.len() implies !self.spec_contains(
                result@[i2],
            ) && exists|k: int|
                0 <= k < self.length && adjacent(self.cell_at(k), result@[i2]) by {
                let k = choose|k: int|
                    0 <= k < self.length && adjacent(self.cell_at(k), result@[i2]);
                assert(0 <= k < self.length && adjacent(self.cell_at(k), result@[i2]));
            }
        }
        result
    }

    /// One cell past the path's last cell.
    pub fn end(&self) -> (r: Coord2)
        requires
            self.wf(),
        ensures
            r == self.cell_at(self.length as int),
    {
        match self.orientation {
            Orientation::Vertical => Coord2 { x: self.start.x, y: self.start.y + self.length },
            Orientation::Horizontal => Coord2 { x: self.start.x + self.length, y: self.start.y },
        }
    }

    /// The path shifted one cell forward, or `None` once nothing remains.
    pub fn advance(self) -> (r: Option<Path>)
        requires
            self.wf(),
            self.length >= 1,
        ensures
            self.length == 1 ==> r is None,
            self.length > 1 ==> r == Some(
                Path {
                    start: self.cell_at(1),
                    orientation: self.orientation,
                    length: (self.length - 1) as u64,
                },
            ),
            r is Some ==> r.unwrap().wf(),
    {
        let offset = self.orientation.as_offset();
        let new_path = Path {
            start: Coord2 { x: self.start.x + offset.x, y: self.start.y + offset.y },
            orientation: self.orientation,
            length: self.length - 1,
        };
        if new_path.length > 0 {
            Some(new_path)
        } else {
            None
        }
    }
}

/// The kinds of building a tile can hold.
#[derive(Copy, Clone, Debug, PartialEq, Eq, Structural, Hash)]
pub enum Building {
    House,
    Saloon,
    Factory,
    GeneralStore,
    TrainStation,
}

impl Building {
    /// The building named by a one-letter code, if any.
    pub fn from_code(code: char) -> (r: Option<Building>)
        ensures
            r == spec_building_from_code(code),
            r is Some ==> spec_building_code(r.unwrap()) == code,
    {
        match code {
            'h' => Some(Building::House),
            's' => Some(Building::Saloon),
            'f' => Some(Building::Factory),
            'g' => Some(Building::GeneralStore),
            'r' => Some(Building::TrainStation),
            _ => None,
        }
    }

    /// The one-letter code naming this building.
    pub fn code(&self) -> (r: char)
        ensures
            r == spec_building_code(*self),
            spec_building_from_code(r) == Some(*self),
    {
        match *self {
            Building::House => 'h',
            Building::Saloon => 's',
            Building::Factory => 'f',
            Building::GeneralStore => 'g',
            Building::TrainStation => 'r',
        }
    }
}

/// The building named by a one-letter code, if any.
pub open spec fn spec_building_from_code(code: char) -> Option<Building> {
    if code == 'h' {
        Some(Building::House)
    } else if code == 's' {
        Some(Building::Saloon)
    } else if code == 'f' {
        Some(Building::Factory)
    } else if code == 'g' {
        Some(Building::GeneralStore)
    } else if code == 'r' {
        Some(Building::TrainStation)
    } else {
        None
    }
}

/// The one-letter code naming building `b`.
pub open spec fn spec_building_code(b: Building) -> char {
    match b {
        Building::House => 'h',
        Building::Saloon => 's',
        Building::Factory => 'f',
        Building::GeneralStore => 'g',
        Building::TrainStation => 'r',
    }
}

} // verus!
