//! Grid geometry: positions, directions, and walks as sequences of directions.

use vstd::prelude::*;

verus! {

/// Width of the map, in cells.
pub const GRID_W: i32 = 20;

/// Height of the map, in cells.
pub const GRID_H: i32 = 15;

/// Column of the cell where the base stands and from which the map is connected.
pub const START_X: i32 = 5;

/// Row of the cell where the base stands and from which the map is connected.
pub const START_Y: i32 = 5;

/// Number of workers spawned at the start of a game.
pub const NUM_WORKERS: usize = 10;

/// A cell of the (unbounded) integer grid: column, then row.
pub type Cell = (int, int);

/// One of the four compass steps.
#[derive(Copy, Clone, Debug, PartialEq, Eq, Structural)]
pub enum Direction {
    North,
    South,
    East,
    West,
}

/// A grid position as the game stores it.
#[derive(Copy, Clone, Debug, PartialEq, Eq, Structural)]
pub struct GridPos {
    pub x: i32,
    pub y: i32,
}

impl View for GridPos {
    type V = Cell;

    open spec fn view(&self) -> Cell {
        (self.x as int, self.y as int)
    }
}

impl Direction {
    /// Change of column made by one step. North is up on screen, towards smaller rows.
    pub open spec fn dx(self) -> int {
        match self {
            Direction::North => 0,
            Direction::South => 0,
            Direction::East => 1,
            Direction::West => -1,
        }
    }

    /// Change of row made by one step.
    pub open spec fn dy(self) -> int {
        match self {
            Direction::North => -1,
            Direction::South => 1,
            Direction::East => 0,
            Direction::West => 0,
        }
    }

    /// Place in the fixed order north, south, east, west in which neighbours are tried.
    pub open spec fn rank(self) -> nat {
        match self {
            Direction::North => 0,
            Direction::South => 1,
            Direction::East => 2,
            Direction::West => 3,
        }
    }

    /// Quarter turns counter-clockwise, seen from above, from facing north.
    pub open spec fn quarter_turns(self) -> int {
        match self {
            Direction::North => 0,
            Direction::South => 2,
            Direction::East => -1,
            Direction::West => 1,
        }
    }

    /// Column and row change of one step.
    pub fn delta(self) -> (d: (i32, i32))
        ensures
            d.0 == self.dx(),
            d.1 == self.dy(),
    {
        match self {
            Direction::North => (0, -1),
            Direction::South => (0, 1),
            Direction::East => (1, 0),
            Direction::West => (-1, 0),
        }
    }

    /// Yaw that faces this direction, in quarter turns counter-clockwise from north.
    pub fn yaw(self) -> (q: i32)
        ensures
            q == self.quarter_turns(),
    {
        match self {
            Direction::North => 0,
            Direction::South => 2,
            Direction::East => -1,
            Direction::West => 1,
        }
    }
}

/// The four directions, in the order in which neighbours are tried.
pub fn cardinal_dirs() -> (dirs: [Direction; 4])
    ensures
        forall|i: int| 0 <= i < 4 ==> (#[trigger] dirs@[i]).rank() == i,
{
    [Direction::North, Direction::South, Direction::East, Direction::West]
}

/// The cell where the base stands.
pub open spec fn start_cell() -> Cell {
    (START_X as int, START_Y as int)
}

/// The position of the base.
pub fn start_pos() -> (p: GridPos)
    ensures
        p@ == start_cell(),
{
    GridPos { x: START_X, y: START_Y }
}

/// The cell one step from `c`.
pub open spec fn neighbor(c: Cell, d: Direction) -> Cell {
    (c.0 + d.dx(), c.1 + d.dy())
}

/// True of the cells of the map.
pub open spec fn in_grid(c: Cell) -> bool {
    0 <= c.0 < GRID_W && 0 <= c.1 < GRID_H
}

/// True of the cells that a [`GridPos`] can hold.
pub open spec fn representable(c: Cell) -> bool {
    i32::MIN <= c.0 <= i32::MAX && i32::MIN <= c.1 <= i32::MAX
}

/// True of the cells whose four neighbours are representable positions.
pub open spec fn steppable(c: Cell) -> bool {
    i32::MIN < c.0 < i32::MAX && i32::MIN < c.1 < i32::MAX
}

/// Where the walk `w` from `c` ends.
pub open spec fn walk_end(c: Cell, w: Seq<Direction>) -> Cell
    decreases w.len(),
{
    if w.len() == 0 {
        c
    } else {
        neighbor(walk_end(c, w.drop_last()), w.last())
    }
}

/// Place of a walk in the list of all walks, shorter walks first and walks of equal length
/// in dictionary order by [`Direction::rank`].
pub open spec fn walk_rank(w: Seq<Direction>) -> nat
    decreases w.len(),
{
    if w.len() == 0 {
        0
    } else {
        4 * walk_rank(w.drop_last()) + 1 + w.last().rank()
    }
}

/// Appending one step.
pub proof fn lemma_push(c: Cell, w: Seq<Direction>, d: Direction)
    ensures
        walk_end(c, w.push(d)) == neighbor(walk_end(c, w), d),
        walk_rank(w.push(d)) == 4 * walk_rank(w) + 1 + d.rank(),
{
    assert(w.push(d).drop_last() =~= w);
}

/// A walk with fewer steps comes before every walk with more.
pub proof fn law_shorter_walk_ranks_lower(v: Seq<Direction>, w: Seq<Direction>)
    requires
        v.len() < w.len(),
    ensures
        walk_rank(v) < walk_rank(w),
    decreases w.len(),
{
    if v.len() > 0 {
        law_shorter_walk_ranks_lower(v.drop_last(), w.drop_last());
    }
}

/// No two walks share a place in the list.
pub proof fn law_walk_rank_is_injective(v: Seq<Direction>, w: Seq<Direction>)
    requires
        walk_rank(v) == walk_rank(w),
    ensures
        v == w,
    decreases v.len(),
{
    if v.len() > 0 && w.len() > 0 {
        law_walk_rank_is_injective(v.drop_last(), w.drop_last());
        assert(v =~= v.drop_last().push(v.last()));
        assert(w =~= w.drop_last().push(w.last()));
    } else {
        assert(v =~= w);
    }
}

/// A step north is one row up, south one down, east one column to the right, west one to the left.
pub proof fn law_steps(c: Cell)
    ensures
        neighbor(c, Direction::North) == (c.0, c.1 - 1),
        neighbor(c, Direction::South) == (c.0, c.1 + 1),
        neighbor(c, Direction::East) == (c.0 + 1, c.1),
        neighbor(c, Direction::West) == (c.0 - 1, c.1),
{
}

/// One more quarter turn counter-clockwise turns the step the same way: what went right goes up,
/// what went up goes left. Without a turn it goes north.
pub proof fn law_yaw_faces_the_step(d: Direction, e: Direction)
    ensures
        -1 <= d.quarter_turns() <= 2,
        d.quarter_turns() == 0 <==> d == Direction::North,
        (e.quarter_turns() - d.quarter_turns()) % 4 == 1 ==> {
            let (before, after) = (neighbor((0, 0), d), neighbor((0, 0), e));
            after == (before.1, -before.0)
        },
        d.quarter_turns() == e.quarter_turns() ==> d == e,
{
}

/// Directions are tried in the order north, south, east, west.
pub proof fn law_order_of_directions(d: Direction, e: Direction)
    ensures
        d.rank() < e.rank() <==> {
            ||| d == Direction::North && e != Direction::North
            ||| d == Direction::South && (e == Direction::East || e == Direction::West)
            ||| d == Direction::East && e == Direction::West
        },
{
}

/// Of two walks of the same length, the one that goes north, or else south, or else east, where
/// they first differ comes before the other.
pub proof fn law_first_difference_decides(v: Seq<Direction>, w: Seq<Direction>, i: int)
    requires
        v.len() == w.len(),
        0 <= i < v.len(),
        forall|j: int| 0 <= j < i ==> v[j] == w[j],
        v[i].rank() < w[i].rank(),
    ensures
        walk_rank(v) < walk_rank(w),
    decreases v.len(),
{
    if i == v.len() - 1 {
        assert(v.drop_last() =~= w.drop_last());
    } else {
        law_first_difference_decides(v.drop_last(), w.drop_last(), i);
    }
}

/// How many steps of a walk go in a direction.
pub open spec fn steps_to(w: Seq<Direction>, d: Direction) -> int {
    w.filter(|e: Direction| e == d).len() as int
}

/// Where a walk ends depends only on how many of its steps go in each direction.
pub proof fn law_walks_add_up(c: Cell, w: Seq<Direction>)
    ensures
        walk_end(c, w).0 == c.0 + steps_to(w, Direction::East) - steps_to(w, Direction::West),
        walk_end(c, w).1 == c.1 + steps_to(w, Direction::South) - steps_to(w, Direction::North),
    decreases w.len(),
{
    reveal(Seq::filter);
    if w.len() > 0 {
        law_walks_add_up(c, w.drop_last());
    }
}

/// The map has twenty columns and fifteen rows; the base stands in the sixth of each.
pub proof fn law_extent_of_the_map(x: int, y: int)
    ensures
        in_grid((x, y)) <==> 0 <= x && x <= 19 && 0 <= y && y <= 14,
        start_cell() == (5int, 5int),
{
}

} // verus!
