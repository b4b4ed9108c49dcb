//! Terrain and the tile map.

use vstd::prelude::*;
use vstd::set_lib::*;
use crate::grid;
use crate::walk;
use crate::grid::{Cell, Direction, GRID_H, GRID_W, START_X, START_Y};

verus! {

/// What covers a tile.
#[derive(Copy, Clone, Debug, PartialEq, Eq, Structural)]
pub enum Terrain {
    Grass,
    Dirt,
    Stone,
    Water,
    Wall,
}

/// Bit pattern of the single-precision number 0.30.
pub const WATER_BELOW: u32 = 0x3e99999a;

/// Bit pattern of the single-precision number 0.42.
pub const DIRT_BELOW: u32 = 0x3ed70a3d;

/// Bit pattern of the single-precision number 0.70.
pub const GRASS_BELOW: u32 = 0x3f333333;

/// Bit pattern of the single-precision number 0.84.
pub const STONE_BELOW: u32 = 0x3f570a3d;

/// True if the single-precision number with the bit pattern `bits` is less than the positive
/// number with the bit pattern `bound`. Bit patterns of positive numbers are ordered as the
/// numbers; those from `0x8000_0000` to `0xff80_0000` are the numbers with a sign; what lies
/// above is no number, and less than nothing.
pub open spec fn number_less(bits: u32, bound: u32) -> bool {
    bits < bound || 0x8000_0000 <= bits <= 0xff80_0000
}

impl Terrain {
    /// True of the terrain that workers walk on.
    pub open spec fn walkable(self) -> bool {
        self is Grass || self is Dirt || self is Stone
    }

    /// The terrain band of an elevation, given by the bit pattern of a single-precision number.
    pub open spec fn band(bits: u32) -> Terrain {
        if number_less(bits, WATER_BELOW) {
            Terrain::Water
        } else if number_less(bits, DIRT_BELOW) {
            Terrain::Dirt
        } else if number_less(bits, GRASS_BELOW) {
            Terrain::Grass
        } else if number_less(bits, STONE_BELOW) {
            Terrain::Stone
        } else {
            Terrain::Wall
        }
    }

    /// True if workers can walk on this terrain.
    pub fn passable(self) -> (b: bool)
        ensures
            b == self.walkable(),
    {
        matches!(self, Terrain::Grass | Terrain::Dirt | Terrain::Stone)
    }

    /// Maps an elevation in [0, 1], given as the bit pattern of a single-precision number, to
    /// its terrain band. The extreme bands, water and wall, are narrow on purpose.
    pub fn from_elevation(bits: u32) -> (t: Terrain)
        ensures
            t == Self::band(bits),
    {
        if bits >= 0x8000_0000 && bits <= 0xff80_0000 {
            Terrain::Water
        } else if bits < WATER_BELOW {
            Terrain::Water
        } else if bits < DIRT_BELOW {
            Terrain::Dirt
        } else if bits < GRASS_BELOW {
            Terrain::Grass
        } else if bits < STONE_BELOW {
            Terrain::Stone
        } else {
            Terrain::Wall
        }
    }
}

/// Place of a cell of the map in the row-major list of tiles.
pub open spec fn tile_index(c: Cell) -> int {
    c.1 * GRID_W + c.0
}

/// Number of tiles of the map.
pub open spec fn tile_count() -> int {
    GRID_W * GRID_H
}

/// The cell at place `i` of the row-major list of tiles.
pub open spec fn cell_at(i: int) -> Cell {
    (i % (GRID_W as int), i / (GRID_W as int))
}

/// True if `c` is on the map and its tile can be walked on.
pub open spec fn passable_at(tiles: Seq<Terrain>, c: Cell) -> bool {
    grid::in_grid(c) && tiles[tile_index(c)].walkable()
}

/// The tile map, in row-major order.
pub struct World {
    pub tiles: Vec<Terrain>,
}

impl World {
    /// True if there is one tile for each cell.
    pub open spec fn wf(&self) -> bool {
        self.tiles@.len() == tile_count()
    }

    /// Place of a cell of the map in the list of tiles.
    pub fn idx(x: i32, y: i32) -> (i: usize)
        requires
            grid::in_grid((x as int, y as int)),
        ensures
            i == tile_index((x as int, y as int)),
            i < tile_count(),
    {
        (y * GRID_W + x) as usize
    }

    /// The terrain of a cell, if it is on the map.
    pub fn get(&self, x: i32, y: i32) -> (t: Option<Terrain>)
        requires
            self.wf(),
        ensures
            t == (if grid::in_grid((x as int, y as int)) {
                Some(self.tiles@[tile_index((x as int, y as int))])
            } else {
                None
            }),
    {
        if x < 0 || x >= GRID_W || y < 0 || y >= GRID_H {
            return None;
        }
        Some(self.tiles[Self::idx(x, y)])
    }

    /// Marks the cells that a walk over passable cells reaches from one cell.
    pub fn flood_from(&self, sx: i32, sy: i32) -> (visited: Vec<bool>)
        requires
            self.wf(),
        ensures
            visited@.len() == tile_count(),
            forall|c: Cell|
                grid::in_grid(c) ==> #[trigger] visited@[tile_index(c)] == walk::reachable(
                    self.tiles@,
                    (sx as int, sy as int),
                    c,
                ),
    {
        let ghost start = (sx as int, sy as int);
        let ghost tiles = self.tiles@;
        let mut visited: Vec<bool> = vec![false; (GRID_W * GRID_H) as usize];
        let mut stack: Vec<(i32, i32)> = Vec::new();
        stack.push((sx, sy));
        proof {
            assert(stack@[0] == (sx, sy));
            assert forall|k: int|
                0 <= k < stack@.len() && passable_at(
                    tiles,
                    ((#[trigger] stack@[k]).0 as int, stack@[k].1 as int),
                ) implies walk::reachable(tiles, start, (stack@[k].0 as int, stack@[k].1 as int)) by {
                walk::lemma_reach_self(tiles, start);
            }
        }
        while stack.len() > 0
            invariant
                self.wf(),
                tiles == self.tiles@,
                start == (sx as int, sy as int),
                visited@.len() == tile_count(),
                forall|c: Cell|
                    grid::in_grid(c) && #[trigger] visited@[tile_index(c)] ==> walk::reachable(
                        tiles,
                        start,
                        c,
                    ),
                forall|k: int|
                    0 <= k < stack@.len() && passable_at(
                        tiles,
                        ((#[trigger] stack@[k]).0 as int, stack@[k].1 as int),
                    ) ==> walk::reachable(tiles, start, (stack@[k].0 as int, stack@[k].1 as int)),
                passable_at(tiles, start) ==> visited@[tile_index(start)] || pending(stack@, start),
                forall|c: Cell, e: Direction|
                    grid::in_grid(c) && visited@[tile_index(c)] && passable_at(
                        tiles,
                        #[trigger] grid::neighbor(c, e),
                    ) ==> visited@[tile_index(grid::neighbor(c, e))] || pending(
                        stack@,
                        grid::neighbor(c, e),
                    ),
            decreases unmarked(visited@), stack@.len(),
        {
            let ghost stack0 = stack@;
            let ghost visited0 = visited@;
            let top = stack.pop();
            let (x, y) = match top {
                Some(p) => p,
                None => {
                    return visited;
                },
            };
            let ghost here = (x as int, y as int);
            assert(stack0[stack0.len() - 1] == (x, y));
            if x < 0 || x >= GRID_W || y < 0 || y >= GRID_H {
                proof {
                    lemma_pop_pending(stack0);
                }
                continue;
            }
            let i = Self::idx(x, y);
            if visited[i] || !self.tiles[i].passable() {
                proof {
                    lemma_pop_pending(stack0);
                }
                continue;
            }
            visited[i] = true;
            let ghost stack1 = stack@;
            stack.push((x + 1, y));
            stack.push((x - 1, y));
            stack.push((x, y + 1));
            stack.push((x, y - 1));
            proof {
                lemma_mark(visited0, i as int);
                lemma_pop_pending(stack0);
                let n = stack1.len() as int;
                assert(stack@[n] == (((x + 1) as i32), y));
                assert(stack@[n + 1] == (((x - 1) as i32), y));
                assert(stack@[n + 2] == (x, ((y + 1) as i32)));
                assert(stack@[n + 3] == (x, ((y - 1) as i32)));
                assert(grid::neighbor(here, Direction::East) == (x + 1, y as int));
                assert(grid::neighbor(here, Direction::West) == (x - 1, y as int));
                assert(grid::neighbor(here, Direction::South) == (x as int, y + 1));
                assert(grid::neighbor(here, Direction::North) == (x as int, y - 1));
                assert forall|e: Direction| pending(stack@, #[trigger] grid::neighbor(here, e)) by {
                    match e {
                        Direction::East => {
                            assert(stack@[n].0 == x + 1);
                        },
                        Direction::West => {
                            assert(stack@[n + 1].0 == x - 1);
                        },
                        Direction::South => {
                            assert(stack@[n + 2].1 == y + 1);
                        },
                        Direction::North => {
                            assert(stack@[n + 3].1 == y - 1);
                        },
                    }
                }
                assert forall|c: Cell| #[trigger] pending(stack1, c) implies pending(stack@, c) by {
                    let k = choose|k: int|
                        0 <= k < stack1.len() && (#[trigger] stack1[k]).0 == c.0 && stack1[k].1
                            == c.1;
                    assert(stack@[k] == stack1[k]);
                }
                assert forall|c: Cell|
                    grid::in_grid(c) && #[trigger] visited@[tile_index(c)] implies walk::reachable(
                    tiles,
                    start,
                    c,
                ) by {
                    lemma_tile_index(c);
                    lemma_tile_index(here);
                    if tile_index(c) == i {
                        assert(c == here);
                    } else {
                        assert(visited0[tile_index(c)]);
                    }
                }
                assert forall|k: int|
                    0 <= k < stack@.len() && passable_at(
                        tiles,
                        ((#[trigger] stack@[k]).0 as int, stack@[k].1 as int),
                    ) implies walk::reachable(
                    tiles,
                    start,
                    (stack@[k].0 as int, stack@[k].1 as int),
                ) by {
                    if k < n {
                        assert(stack@[k] == stack0[k]);
                    } else if k == n {
                        walk::lemma_reach_step(tiles, start, here, Direction::East);
                    } else if k == n + 1 {
                        walk::lemma_reach_step(tiles, start, here, Direction::West);
                    } else if k == n + 2 {
                        walk::lemma_reach_step(tiles, start, here, Direction::South);
                    } else {
                        walk::lemma_reach_step(tiles, start, here, Direction::North);
                    }
                }
                assert forall|c: Cell, e: Direction|
                    grid::in_grid(c) && visited@[tile_index(c)] && passable_at(
                        tiles,
                        #[trigger] grid::neighbor(c, e),
                    ) implies visited@[tile_index(grid::neighbor(c, e))] || pending(
                    stack@,
                    grid::neighbor(c, e),
                ) by {
                    lemma_tile_index(c);
                    lemma_tile_index(here);
                    if tile_index(c) == i {
                        assert(c == here);
                    } else {
                        assert(visited0[tile_index(c)]);
                        let d = grid::neighbor(c, e);
                        if !visited0[tile_index(d)] && !pending(stack1, d) {
                            assert(d == here);
                        }
                    }
                }
            }
        }
        proof {
            assert forall|c: Cell| grid::in_grid(c) implies #[trigger] visited@[tile_index(c)]
                == walk::reachable(tiles, start, c) by {
                if walk::reachable(tiles, start, c) {
                    let marked = Set::new(
                        |d: Cell| grid::in_grid(d) && visited@[tile_index(d)],
                    );
                    let w = choose|w: Seq<Direction>| #[trigger]
                        walk::open_walk(tiles, Set::empty(), start, w) && grid::walk_end(start, w)
                            == c;
                    walk::lemma_reach_closed(tiles, start, marked, w);
                }
            }
        }
        visited
    }

    /// Turns every barrier on the way from one cell to another to dirt: first along the row of
    /// the first cell, then along the column of the second, which is left alone itself.
    pub fn carve(&mut self, x: i32, y: i32, tx: i32, ty: i32)
        requires
            old(self).wf(),
            grid::in_grid((x as int, y as int)),
            grid::in_grid((tx as int, ty as int)),
        ensures
            final(self).tiles@ == carved(
                old(self).tiles@,
                (x as int, y as int),
                (tx as int, ty as int),
            ),
    {
        let ghost s = (x as int, y as int);
        let ghost t = (tx as int, ty as int);
        let ghost before = self.tiles@;
        let mut cx: i32 = x;
        let mut cy: i32 = y;
        while cx != tx || cy != ty
            invariant
                before.len() == tile_count(),
                self.tiles@.len() == before.len(),
                s == (x as int, y as int),
                t == (tx as int, ty as int),
                grid::in_grid((cx as int, cy as int)),
                grid::in_grid(t),
                forall|c: Cell| #[trigger] on_way((cx as int, cy as int), t, c) ==> on_way(s, t, c),
                forall|i: int|
                    0 <= i < before.len() ==> #[trigger] self.tiles@[i] == (if on_way(
                        s,
                        t,
                        cell_at(i),
                    ) && !on_way((cx as int, cy as int), t, cell_at(i)) && !before[i].walkable() {
                        Terrain::Dirt
                    } else {
                        before[i]
                    }),
            decreases distance((cx as int, cy as int), t),
        {
            let ghost here = (cx as int, cy as int);
            let ghost tiles0 = self.tiles@;
            let i = Self::idx(cx, cy);
            proof {
                lemma_tile_index(here);
                assert(on_way(here, t, here));
            }
            if !self.tiles[i].passable() {
                self.tiles[i] = Terrain::Dirt;
            }
            if cx != tx {
                if cx < tx {
                    cx += 1;
                } else {
                    cx -= 1;
                }
            } else {
                if cy < ty {
                    cy += 1;
                } else {
                    cy -= 1;
                }
            }
            proof {
                let next = (cx as int, cy as int);
                assert forall|c: Cell| #[trigger] on_way(next, t, c) implies on_way(s, t, c) by {
                    assert(on_way(here, t, c));
                }
                assert forall|c: Cell| #[trigger] on_way(here, t, c) implies on_way(next, t, c) || c
                    == here by {}
                assert forall|k: int| 0 <= k < before.len() implies #[trigger] self.tiles@[k] == (
                if on_way(s, t, cell_at(k)) && !on_way(next, t, cell_at(k))
                    && !before[k].walkable() {
                    Terrain::Dirt
                } else {
                    before[k]
                }) by {
                    lemma_cell_at(k);
                    if k != i {
                        assert(self.tiles@[k] == tiles0[k]);
                        assert(cell_at(k) != here);
                    }
                    assert(on_way(next, t, cell_at(k)) ==> on_way(here, t, cell_at(k)));
                    assert(tiles0[k] == (if on_way(s, t, cell_at(k)) && !on_way(
                        here,
                        t,
                        cell_at(k),
                    ) && !before[k].walkable() {
                        Terrain::Dirt
                    } else {
                        before[k]
                    }));
                }
            }
        }
        assert(self.tiles@ =~= carved(before, s, t));
    }

    /// Carves ways until every passable cell is reached from the starting cell. Each pass links
    /// the first stranded cell to the closest cell reached.
    pub fn ensure_connected(&mut self)
        requires
            old(self).wf(),
            passable_at(old(self).tiles@, grid::start_cell()) || forall|c: Cell|
                !(#[trigger] passable_at(old(self).tiles@, c)),
        ensures
            final(self).tiles@ == connected(old(self).tiles@),
            final(self).wf(),
            forall|c: Cell| #[trigger]
                passable_at(final(self).tiles@, c) ==> walk::reachable(
                    final(self).tiles@,
                    grid::start_cell(),
                    c,
                ),
    {
        let ghost whole = connected(self.tiles@);
        loop
            invariant
                self.wf(),
                passable_at(self.tiles@, grid::start_cell()) || forall|c: Cell|
                    !(#[trigger] passable_at(self.tiles@, c)),
                connected(self.tiles@) == whole,
            ensures
                self.wf(),
                self.tiles@ == whole,
                forall|c: Cell| !(#[trigger] stranded(self.tiles@, c)),
            decreases Set::new(|c: Cell| stranded(self.tiles@, c)).len(),
        {
            let reached = self.flood_from(START_X, START_Y);
            let found = self.find_stranded(&reached);
            let (sx, sy) = match found {
                Some(p) => p,
                None => {
                    break;
                },
            };
            let (tx, ty) = closest(&reached, sx, sy, Ghost(self.tiles@));
            proof {
                let s = (sx as int, sy as int);
                let t = (tx as int, ty as int);
                assert(stranded(self.tiles@, s));
                lemma_linked(self.tiles@);
                let s0 = choose|s: Cell| first_stranded(self.tiles@, s);
                lemma_first_stranded_unique(self.tiles@, s, s0);
                let t0 = choose|t: Cell| closest_reached(self.tiles@, s0, t);
                lemma_closest_unique(self.tiles@, s, t, t0);
                assert(linked(self.tiles@) == carved(self.tiles@, s, t));
            }
            self.carve(sx, sy, tx, ty);
        }
        proof {
            assert forall|c: Cell| #[trigger] passable_at(self.tiles@, c) implies walk::reachable(
                self.tiles@,
                grid::start_cell(),
                c,
            ) by {
                assert(!stranded(self.tiles@, c));
            }
        }
    }

    /// The first cell in the list of tiles that is passable and not marked as reached.
    fn find_stranded(&self, reached: &Vec<bool>) -> (found: Option<(i32, i32)>)
        requires
            self.wf(),
            marks_reached(self.tiles@, reached@),
        ensures
            match found {
                Some(p) => first_stranded(self.tiles@, (p.0 as int, p.1 as int)),
                None => forall|c: Cell| !(#[trigger] stranded(self.tiles@, c)),
            },
    {
        let mut y: i32 = 0;
        while y < GRID_H
            invariant
                self.wf(),
                marks_reached(self.tiles@, reached@),
                0 <= y <= GRID_H,
                forall|c: Cell| #[trigger] stranded(self.tiles@, c) ==> tile_index(c) >= y * GRID_W,
            decreases GRID_H - y,
        {
            let mut x: i32 = 0;
            while x < GRID_W
                invariant
                    self.wf(),
                    marks_reached(self.tiles@, reached@),
                    0 <= y < GRID_H,
                    0 <= x <= GRID_W,
                    forall|c: Cell| #[trigger]
                        stranded(self.tiles@, c) ==> tile_index(c) >= y * GRID_W + x,
                decreases GRID_W - x,
            {
                let i = Self::idx(x, y);
                let ghost here = (x as int, y as int);
                assert(reached@[tile_index(here)] == walk::reachable(
                    self.tiles@,
                    grid::start_cell(),
                    here,
                ));
                if self.tiles[i].passable() && !reached[i] {
                    assert(stranded(self.tiles@, here));
                    return Some((x, y));
                }
                proof {
                    assert(!stranded(self.tiles@, here));
                    assert forall|c: Cell| #[trigger] stranded(self.tiles@, c) implies tile_index(c)
                        >= y * GRID_W + x + 1 by {
                        if tile_index(c) == tile_index(here) {
                            lemma_tile_index(c);
                            lemma_tile_index(here);
                        }
                    }
                }
                x += 1;
            }
            y += 1;
        }
        proof {
            assert forall|c: Cell| !(#[trigger] stranded(self.tiles@, c)) by {
                if stranded(self.tiles@, c) {
                    lemma_tile_index(c);
                }
            }
        }
        None
    }

    /// The world with the given elevations, row by row, each the bit pattern of a
    /// single-precision number. The starting cell is grass whatever its elevation.
    pub fn generate(elevation: &Vec<u32>) -> (world: World)
        requires
            elevation@.len() == tile_count(),
        ensures
            world.tiles@ == connected(terrain_of(elevation@)),
            world.wf(),
            passable_at(world.tiles@, grid::start_cell()),
            forall|c: Cell| #[trigger]
                passable_at(world.tiles@, c) ==> walk::reachable(
                    world.tiles@,
                    grid::start_cell(),
                    c,
                ),
            forall|i: int|
                0 <= i < tile_count() && i != tile_index(grid::start_cell()) ==> {
                    ||| #[trigger] world.tiles@[i] == Terrain::band(elevation@[i])
                    ||| world.tiles@[i] == Terrain::Dirt && (Terrain::band(elevation@[i])
                        == Terrain::Water || Terrain::band(elevation@[i]) == Terrain::Wall)
                },
    {
        let mut tiles: Vec<Terrain> = Vec::new();
        let mut i: usize = 0;
        while i < elevation.len()
            invariant
                elevation@.len() == tile_count(),
                0 <= i <= elevation@.len(),
                tiles@.len() == i,
                forall|k: int| 0 <= k < i ==> #[trigger] tiles@[k] == Terrain::band(elevation@[k]),
            decreases elevation@.len() - i,
        {
            tiles.push(Terrain::from_elevation(elevation[i]));
            i += 1;
        }
        let start = Self::idx(START_X, START_Y);
        tiles[start] = Terrain::Grass;
        assert(tiles@ =~= terrain_of(elevation@));
        let mut world = World { tiles };
        world.ensure_connected();
        proof {
            law_connecting_only_carves(terrain_of(elevation@));
        }
        world
    }
}

/// Terrain before any carving: the band of each elevation, and grass at the starting cell.
pub open spec fn terrain_of(elevation: Seq<u32>) -> Seq<Terrain> {
    Seq::new(
        elevation.len(),
        |i: int|
            if i == tile_index(grid::start_cell()) {
                Terrain::Grass
            } else {
                Terrain::band(elevation[i])
            },
    )
}

/// True if the marks are on the cells that the starting cell reaches.
spec fn marks_reached(tiles: Seq<Terrain>, reached: Seq<bool>) -> bool {
    reached.len() == tile_count() && forall|c: Cell|
        grid::in_grid(c) ==> #[trigger] reached[tile_index(c)] == walk::reachable(
            tiles,
            grid::start_cell(),
            c,
        )
}

/// The marked cell closest to a given one, the first in the list of tiles if there are several.
fn closest(reached: &Vec<bool>, sx: i32, sy: i32, tiles: Ghost<Seq<Terrain>>) -> (t: (i32, i32))
    requires
        marks_reached(tiles@, reached@),
        grid::in_grid((sx as int, sy as int)),
        passable_at(tiles@, grid::start_cell()),
    ensures
        closest_reached(tiles@, (sx as int, sy as int), (t.0 as int, t.1 as int)),
{
    let ghost s = (sx as int, sy as int);
    let mut best: Option<(i32, i32, i32)> = None;
    let mut y: i32 = 0;
    while y < GRID_H
        invariant
            marks_reached(tiles@, reached@),
            s == (sx as int, sy as int),
            grid::in_grid(s),
            0 <= y <= GRID_H,
            best_so_far(tiles@, s, best, y * GRID_W),
        decreases GRID_H - y,
    {
        let mut x: i32 = 0;
        while x < GRID_W
            invariant
                marks_reached(tiles@, reached@),
                s == (sx as int, sy as int),
                grid::in_grid(s),
                0 <= y < GRID_H,
                0 <= x <= GRID_W,
                best_so_far(tiles@, s, best, y * GRID_W + x),
            decreases GRID_W - x,
        {
            let ghost here = (x as int, y as int);
            let i = World::idx(x, y);
            assert(reached@[tile_index(here)] == walk::reachable(
                tiles@,
                grid::start_cell(),
                here,
            ));
            let ghost before = best;
            if reached[i] {
                let dx: i32 = if x < sx {
                    sx - x
                } else {
                    x - sx
                };
                let dy: i32 = if y < sy {
                    sy - y
                } else {
                    y - sy
                };
                let d: i32 = dx + dy;
                let better = match best {
                    None => true,
                    Some((_, _, e)) => d < e,
                };
                if better {
                    best = Some((x, y, d));
                }
            }
            proof {
                assert forall|c: Cell| #[trigger]
                    walk::reachable(tiles@, grid::start_cell(), c) && tile_index(c) < y * GRID_W
                        + x + 1 implies (best matches Some(b) && (b.2 < distance(s, c) || b.2
                    == distance(s, c) && tile_index((b.0 as int, b.1 as int)) <= tile_index(c))) by {
                    lemma_tile_index(c);
                    lemma_tile_index(here);
                }
            }
            x += 1;
        }
        y += 1;
    }
    proof {
        walk::lemma_reach_self(tiles@, grid::start_cell());
        assert forall|c: Cell| #[trigger] walk::reachable(
            tiles@,
            grid::start_cell(),
            c,
        ) implies tile_index(c) < tile_count() by {
            lemma_tile_index(c);
        }
    }
    match best {
        Some((x, y, _)) => (x, y),
        None => (0, 0),
    }
}

/// True if `best` is the closest reached cell among those at places below `n`, with its distance.
spec fn best_so_far(tiles: Seq<Terrain>, s: Cell, best: Option<(i32, i32, i32)>, n: int) -> bool {
    &&& best matches Some(b) ==> {
        &&& walk::reachable(tiles, grid::start_cell(), (b.0 as int, b.1 as int))
        &&& b.2 == distance(s, (b.0 as int, b.1 as int))
        &&& tile_index((b.0 as int, b.1 as int)) < n
    }
    &&& forall|c: Cell| #[trigger]
        walk::reachable(tiles, grid::start_cell(), c) && tile_index(c) < n ==> (best matches Some(b)
            && (b.2 < distance(s, c) || b.2 == distance(s, c) && tile_index(
            (b.0 as int, b.1 as int),
        ) <= tile_index(c)))
}

/// Connecting the map leaves every passable tile as it was, turns the barriers that it removes
/// to dirt, and leaves no passable cell that the starting cell does not reach.
pub proof fn law_connecting_only_carves(tiles: Seq<Terrain>)
    requires
        tiles.len() == tile_count(),
        passable_at(tiles, grid::start_cell()),
    ensures
        connected(tiles).len() == tile_count(),
        forall|i: int|
            0 <= i < tile_count() ==> #[trigger] connected(tiles)[i] == tiles[i]
                || !tiles[i].walkable() && connected(tiles)[i] == Terrain::Dirt,
        forall|c: Cell| #[trigger]
            passable_at(connected(tiles), c) ==> walk::reachable(
                connected(tiles),
                grid::start_cell(),
                c,
            ),
        passable_at(connected(tiles), grid::start_cell()),
    decreases Set::new(|c: Cell| stranded(tiles, c)).len(),
{
    if exists|c: Cell| stranded(tiles, c) {
        lemma_linked(tiles);
        law_connecting_only_carves(linked(tiles));
        assert forall|i: int| 0 <= i < tile_count() implies #[trigger] connected(tiles)[i]
            == tiles[i] || !tiles[i].walkable() && connected(tiles)[i] == Terrain::Dirt by {
            assert(connected(tiles)[i] == connected(linked(tiles))[i]);
            assert(linked(tiles)[i] == tiles[i] || !tiles[i].walkable() && linked(tiles)[i]
                == Terrain::Dirt);
        }
    } else {
        assert forall|c: Cell| #[trigger] passable_at(tiles, c) implies walk::reachable(
            tiles,
            grid::start_cell(),
            c,
        ) by {
            assert(!stranded(tiles, c));
        }
    }
}

/// A map on which every passable cell is reached is left alone.
pub proof fn law_connected_map_is_kept(tiles: Seq<Terrain>)
    requires
        forall|c: Cell| #[trigger]
            passable_at(tiles, c) ==> walk::reachable(tiles, grid::start_cell(), c),
    ensures
        connected(tiles) == tiles,
{
}

/// Deterministic hash of a cell, from which terrain and resources are laid out.
pub open spec fn hash_of(x: i32, y: i32) -> u32 {
    let h0 = (x as u32).wrapping_mul(73_856_093) ^ (y as u32).wrapping_mul(19_349_663);
    let h1 = (h0 ^ (h0 >> 16)).wrapping_mul(0x85eb_ca6b);
    let h2 = (h1 ^ (h1 >> 13)).wrapping_mul(0xc2b2_ae35);
    h2 ^ (h2 >> 16)
}

/// Deterministic hash of a cell, from which terrain and resources are laid out.
pub fn tile_hash(x: i32, y: i32) -> (h: u32)
    ensures
        h == hash_of(x, y),
{
    let mut h: u32 = (x as u32).wrapping_mul(73_856_093) ^ (y as u32).wrapping_mul(19_349_663);
    h = h ^ (h >> 16);
    h = h.wrapping_mul(0x85eb_ca6b);
    h = h ^ (h >> 13);
    h = h.wrapping_mul(0xc2b2_ae35);
    h ^ (h >> 16)
}

/// True if `b` lies between `a` and `c`, ends included, whichever is larger.
pub open spec fn between(a: int, b: int, c: int) -> bool {
    a <= b <= c || c <= b <= a
}

/// True of the cells on the way from `s` to `t`, first along the row of `s` and then along the
/// column of `t`, but for `t` itself.
pub open spec fn on_way(s: Cell, t: Cell, c: Cell) -> bool {
    c != t && (c.1 == s.1 && between(s.0, c.0, t.0) || c.0 == t.0 && between(s.1, c.1, t.1))
}

/// The tiles with every barrier on the way from `s` to `t` turned to dirt.
pub open spec fn carved(tiles: Seq<Terrain>, s: Cell, t: Cell) -> Seq<Terrain> {
    Seq::new(
        tiles.len(),
        |i: int|
            if on_way(s, t, cell_at(i)) && !tiles[i].walkable() {
                Terrain::Dirt
            } else {
                tiles[i]
            },
    )
}

/// Number of steps between two cells if nothing were in the way.
pub open spec fn distance(a: Cell, b: Cell) -> nat {
    ((if a.0 < b.0 {
        b.0 - a.0
    } else {
        a.0 - b.0
    }) + (if a.1 < b.1 {
        b.1 - a.1
    } else {
        a.1 - b.1
    })) as nat
}

/// True of a passable cell that the starting cell does not reach.
pub open spec fn stranded(tiles: Seq<Terrain>, c: Cell) -> bool {
    passable_at(tiles, c) && !walk::reachable(tiles, grid::start_cell(), c)
}

/// True of the stranded cell that comes first in the list of tiles.
pub open spec fn first_stranded(tiles: Seq<Terrain>, s: Cell) -> bool {
    stranded(tiles, s) && forall|c: Cell| #[trigger]
        stranded(tiles, c) ==> tile_index(s) <= tile_index(c)
}

/// True of the cell closest to `s` among those that the starting cell reaches; of several, of
/// the one that comes first in the list of tiles.
pub open spec fn closest_reached(tiles: Seq<Terrain>, s: Cell, t: Cell) -> bool {
    walk::reachable(tiles, grid::start_cell(), t) && forall|c: Cell| #[trigger]
        walk::reachable(tiles, grid::start_cell(), c) ==> distance(s, t) < distance(s, c)
            || distance(s, t) == distance(s, c) && tile_index(t) <= tile_index(c)
}

/// The tiles after the first stranded cell has been linked to the closest cell reached.
pub open spec fn linked(tiles: Seq<Terrain>) -> Seq<Terrain> {
    let s = choose|s: Cell| first_stranded(tiles, s);
    let t = choose|t: Cell| closest_reached(tiles, s, t);
    carved(tiles, s, t)
}

/// The tiles after stranded cells have been linked, one after the other, until none is left.
/// Where the starting cell is not passable there is nothing to link to, and nothing is changed.
pub open spec fn connected(tiles: Seq<Terrain>) -> Seq<Terrain>
    decreases Set::new(|c: Cell| stranded(tiles, c)).len(),
{
    if tiles.len() == tile_count() && passable_at(tiles, grid::start_cell()) && exists|c: Cell|
        stranded(tiles, c) {
        proof {
            lemma_linked(tiles);
        }
        connected(linked(tiles))
    } else {
        tiles
    }
}

/// There is one cell at most that comes first among the stranded.
proof fn lemma_first_stranded_unique(tiles: Seq<Terrain>, a: Cell, b: Cell)
    requires
        first_stranded(tiles, a),
        first_stranded(tiles, b),
    ensures
        a == b,
{
    lemma_tile_index(a);
    lemma_tile_index(b);
}

/// There is one cell at most that is closest among those reached.
proof fn lemma_closest_unique(tiles: Seq<Terrain>, s: Cell, a: Cell, b: Cell)
    requires
        closest_reached(tiles, s, a),
        closest_reached(tiles, s, b),
    ensures
        a == b,
{
    lemma_tile_index(a);
    lemma_tile_index(b);
}

/// Where there is a stranded cell, one comes first.
proof fn lemma_first_stranded_exists(tiles: Seq<Terrain>, c: Cell)
    requires
        stranded(tiles, c),
    ensures
        exists|s: Cell| first_stranded(tiles, s),
    decreases tile_index(c),
{
    lemma_tile_index(c);
    if !first_stranded(tiles, c) {
        let d = choose|d: Cell| #[trigger] stranded(tiles, d) && tile_index(d) < tile_index(c);
        lemma_tile_index(d);
        lemma_first_stranded_exists(tiles, d);
    }
}

/// Where a cell is reached, one is closest.
proof fn lemma_closest_exists(tiles: Seq<Terrain>, s: Cell, c: Cell)
    requires
        walk::reachable(tiles, grid::start_cell(), c),
    ensures
        exists|t: Cell| closest_reached(tiles, s, t),
    decreases distance(s, c), tile_index(c),
{
    lemma_tile_index(c);
    if !closest_reached(tiles, s, c) {
        let d = choose|d: Cell| #[trigger]
            walk::reachable(tiles, grid::start_cell(), d) && !(distance(s, c) < distance(s, d)
                || distance(s, c) == distance(s, d) && tile_index(c) <= tile_index(d));
        lemma_tile_index(d);
        lemma_closest_exists(tiles, s, d);
    }
}

/// Carving keeps passable cells as they are and makes the way passable.
proof fn lemma_carved(tiles: Seq<Terrain>, s: Cell, t: Cell)
    requires
        tiles.len() == tile_count(),
    ensures
        forall|c: Cell| #[trigger] passable_at(tiles, c) ==> passable_at(carved(tiles, s, t), c),
        forall|c: Cell|
            grid::in_grid(c) && #[trigger] on_way(s, t, c) ==> passable_at(carved(tiles, s, t), c),
        forall|c: Cell| #[trigger]
            passable_at(carved(tiles, s, t), c) ==> passable_at(tiles, c) || on_way(s, t, c),
{
    assert forall|c: Cell| grid::in_grid(c) implies cell_at(#[trigger] tile_index(c)) == c && 0
        <= tile_index(c) < tile_count() by {
        lemma_tile_index(c);
    }
}

/// A cell from which the way to a reached cell is passable is reached.
proof fn lemma_way_reached(tiles: Seq<Terrain>, from: Cell, c: Cell, t: Cell)
    requires
        grid::in_grid(c),
        walk::reachable(tiles, from, t),
        forall|d: Cell| grid::in_grid(d) && #[trigger] on_way(c, t, d) ==> passable_at(tiles, d),
    ensures
        walk::reachable(tiles, from, c),
    decreases distance(c, t),
{
    if c != t {
        walk::lemma_reach_passable(tiles, from, t);
        assert(on_way(c, t, c));
        // The step from the next cell of the way back to this one.
        let back = if c.0 < t.0 {
            Direction::West
        } else if c.0 > t.0 {
            Direction::East
        } else if c.1 < t.1 {
            Direction::North
        } else {
            Direction::South
        };
        let next = (c.0 - back.dx(), c.1 - back.dy());
        assert forall|d: Cell| grid::in_grid(d) && #[trigger] on_way(next, t, d) implies passable_at(
            tiles,
            d,
        ) by {
            assert(on_way(c, t, d));
        }
        lemma_way_reached(tiles, from, next, t);
        assert(grid::neighbor(next, back) == c);
        walk::lemma_reach_step(tiles, from, next, back);
    }
}

/// Linking a stranded cell leaves fewer stranded, and none that was not stranded before.
proof fn lemma_link(tiles: Seq<Terrain>, s: Cell, t: Cell)
    requires
        tiles.len() == tile_count(),
        stranded(tiles, s),
        walk::reachable(tiles, grid::start_cell(), t),
    ensures
        forall|c: Cell| #[trigger]
            walk::reachable(tiles, grid::start_cell(), c) ==> walk::reachable(
                carved(tiles, s, t),
                grid::start_cell(),
                c,
            ),
        forall|c: Cell| #[trigger]
            stranded(carved(tiles, s, t), c) ==> stranded(tiles, c) && c != s,
        Set::new(|c: Cell| stranded(carved(tiles, s, t), c)).len() < Set::new(
            |c: Cell| stranded(tiles, c),
        ).len(),
{
    let after = carved(tiles, s, t);
    let from = grid::start_cell();
    lemma_carved(tiles, s, t);
    assert forall|c: Cell| #[trigger] walk::reachable(tiles, from, c) implies walk::reachable(
        after,
        from,
        c,
    ) by {
        walk::lemma_reach_monotone(tiles, after, from, c);
    }
    assert forall|c: Cell| grid::in_grid(c) && (c == s || #[trigger] on_way(s, t, c)) implies walk::reachable(
        after,
        from,
        c,
    ) by {
        assert forall|d: Cell| grid::in_grid(d) && #[trigger] on_way(c, t, d) implies passable_at(
            after,
            d,
        ) by {
            assert(on_way(s, t, d));
        }
        lemma_way_reached(after, from, c, t);
    }
    assert forall|c: Cell| #[trigger] stranded(after, c) implies stranded(tiles, c) && c != s by {
        assert(passable_at(after, c));
        if on_way(s, t, c) {
            assert(walk::reachable(after, from, c));
        }
    }
    let before_set = Set::new(|c: Cell| stranded(tiles, c));
    let after_set = Set::new(|c: Cell| stranded(after, c));
    walk::lemma_grid_cells();
    let cells = Set::new(|c: Cell| grid::in_grid(c));
    lemma_set_subset_finite(cells, before_set);
    lemma_set_subset_finite(cells, after_set);
    assert(after_set.subset_of(before_set.remove(s)));
    lemma_len_subset(after_set, before_set.remove(s));
}

/// Linking brings the map nearer to being connected.
pub proof fn lemma_linked(tiles: Seq<Terrain>)
    requires
        tiles.len() == tile_count(),
        passable_at(tiles, grid::start_cell()),
        exists|c: Cell| stranded(tiles, c),
    ensures
        Set::new(|c: Cell| stranded(linked(tiles), c)).len() < Set::new(
            |c: Cell| stranded(tiles, c),
        ).len(),
        linked(tiles).len() == tile_count(),
        passable_at(linked(tiles), grid::start_cell()),
{
    let c = choose|c: Cell| stranded(tiles, c);
    lemma_first_stranded_exists(tiles, c);
    let s = choose|s: Cell| first_stranded(tiles, s);
    walk::lemma_reach_self(tiles, grid::start_cell());
    lemma_closest_exists(tiles, s, grid::start_cell());
    let t = choose|t: Cell| closest_reached(tiles, s, t);
    lemma_link(tiles, s, t);
    lemma_carved(tiles, s, t);
}

/// True if `c` is on the stack.
spec fn pending(stack: Seq<(i32, i32)>, c: Cell) -> bool {
    exists|k: int| 0 <= k < stack.len() && (#[trigger] stack[k]).0 == c.0 && stack[k].1 == c.1
}

/// Taking the top off the stack loses that cell at most.
proof fn lemma_pop_pending(stack: Seq<(i32, i32)>)
    requires
        stack.len() > 0,
    ensures
        forall|c: Cell| #[trigger]
            pending(stack, c) ==> pending(stack.drop_last(), c) || c == (
                stack.last().0 as int,
                stack.last().1 as int,
            ),
{
    assert forall|c: Cell| #[trigger] pending(stack, c) implies pending(stack.drop_last(), c) || c
        == (stack.last().0 as int, stack.last().1 as int) by {
        let k = choose|k: int|
            0 <= k < stack.len() && (#[trigger] stack[k]).0 == c.0 && stack[k].1 == c.1;
        if k < stack.len() - 1 {
            assert(stack.drop_last()[k] == stack[k]);
        }
    }
}

/// Number of entries that are not marked.
spec fn unmarked(v: Seq<bool>) -> nat
    decreases v.len(),
{
    if v.len() == 0 {
        0
    } else {
        unmarked(v.drop_last()) + (if v.last() {
            0nat
        } else {
            1nat
        })
    }
}

/// Marking an entry leaves fewer unmarked.
proof fn lemma_mark(v: Seq<bool>, i: int)
    requires
        0 <= i < v.len(),
        !v[i],
    ensures
        unmarked(v.update(i, true)) < unmarked(v),
    decreases v.len(),
{
    if i == v.len() - 1 {
        assert(v.update(i, true).drop_last() =~= v.drop_last());
    } else {
        lemma_mark(v.drop_last(), i);
        assert(v.update(i, true).drop_last() =~= v.drop_last().update(i, true));
    }
}

/// Cells of the map and places in the list of tiles correspond.
pub proof fn lemma_tile_index(c: Cell)
    requires
        grid::in_grid(c),
    ensures
        0 <= tile_index(c) < tile_count(),
        cell_at(tile_index(c)) == c,
{
}

/// Places in the list of tiles and cells of the map correspond.
pub proof fn lemma_cell_at(i: int)
    requires
        0 <= i < tile_count(),
    ensures
        grid::in_grid(cell_at(i)),
        tile_index(cell_at(i)) == i,
{
}

/// Workers walk on grass, dirt and stone, and on nothing else.
pub proof fn law_water_and_walls_stop_workers(tiles: Seq<Terrain>, x: int, y: int)
    ensures
        passable_at(tiles, (x, y)) <==> {
            &&& 0 <= x <= 19
            &&& 0 <= y <= 14
            &&& tiles[y * 20 + x] != Terrain::Water
            &&& tiles[y * 20 + x] != Terrain::Wall
        },
{
}

/// The higher, the drier. Of the numbers from a quarter to a half, which have the bit patterns
/// `0x3e80_0000 + m` and are `(0x80_0000 + m) / 0x200_0000`, those below 0.30 are water, others
/// below 0.42 dirt, others grass. Of those from a half to one, which have the bit patterns
/// `0x3f00_0000 + m` and are `(0x80_0000 + m) / 0x100_0000`, those below 0.70 are grass, others
/// below 0.84 stone, others wall. What is less than a quarter is water, and what is one or more,
/// or no number, is wall. The bounds are rounded to the nearest of the numbers.
pub proof fn law_bands_of_elevation(bits: u32, m: int)
    requires
        0 <= m < 0x80_0000,
    ensures
        bits == 0x3e80_0000 + m ==> {
            let v = 0x80_0000 + m;
            Terrain::band(bits) == (if v < (30 * 0x200_0000 + 50) / 100 {
                Terrain::Water
            } else if v < (42 * 0x200_0000 + 50) / 100 {
                Terrain::Dirt
            } else {
                Terrain::Grass
            })
        },
        bits == 0x3f00_0000 + m ==> {
            let v = 0x80_0000 + m;
            Terrain::band(bits) == (if v < (70 * 0x100_0000 + 50) / 100 {
                Terrain::Grass
            } else if v < (84 * 0x100_0000 + 50) / 100 {
                Terrain::Stone
            } else {
                Terrain::Wall
            })
        },
        bits < 0x3e80_0000 ==> Terrain::band(bits) == Terrain::Water,
        0x8000_0000 <= bits <= 0xff80_0000 ==> Terrain::band(bits) == Terrain::Water,
        0x3f80_0000 <= bits < 0x8000_0000 ==> Terrain::band(bits) == Terrain::Wall,
        bits > 0xff80_0000 ==> Terrain::band(bits) == Terrain::Wall,
{
}

/// Every tile of a generated map but that of the base is what its elevation makes it, or would be
/// water or wall and has been turned to dirt. The tile of the base is grass.
pub proof fn law_terrain_follows_the_elevation(elevation: Seq<u32>, x: int, y: int)
    requires
        elevation.len() == 300,
        0 <= x < 20,
        0 <= y < 15,
    ensures
        ({
            let tile = connected(terrain_of(elevation))[y * 20 + x];
            let band = Terrain::band(elevation[y * 20 + x]);
            if x == 5 && y == 5 {
                tile == Terrain::Grass
            } else {
                tile == band || tile == Terrain::Dirt && (band == Terrain::Water || band
                    == Terrain::Wall)
            }
        }),
{
    let tiles = terrain_of(elevation);
    let i = y * 20 + x;
    assert(tile_index(grid::start_cell()) == 105);
    law_connecting_only_carves(tiles);
    assert(connected(tiles)[i] == tiles[i] || !tiles[i].walkable() && connected(tiles)[i]
        == Terrain::Dirt);
}

/// Where everything that can be walked on is linked to the start from the beginning, every tile
/// but that of the base is what its elevation makes it.
pub proof fn law_linked_terrain_is_kept(elevation: Seq<u32>, x: int, y: int)
    requires
        elevation.len() == 300,
        0 <= x < 20,
        0 <= y < 15,
        x != 5 || y != 5,
        forall|c: Cell| #[trigger]
            passable_at(terrain_of(elevation), c) ==> walk::reachable(
                terrain_of(elevation),
                grid::start_cell(),
                c,
            ),
    ensures
        connected(terrain_of(elevation))[y * 20 + x] == Terrain::band(elevation[y * 20 + x]),
{
    law_connected_map_is_kept(terrain_of(elevation));
    assert(tile_index(grid::start_cell()) == 105);
}

/// Carving turns water and walls to dirt along the row of the first cell as far as the column of
/// the second, and from there along that column; the second cell, and all else, is left alone.
pub proof fn law_carving_clears_the_way(tiles: Seq<Terrain>, s: Cell, t: Cell, x: int, y: int)
    requires
        tiles.len() == 300,
        0 <= x < 20,
        0 <= y < 15,
    ensures
        ({
            let before = tiles[y * 20 + x];
            let after = carved(tiles, s, t)[y * 20 + x];
            let on_row = y == s.1 && (s.0 <= x && x <= t.0 || t.0 <= x && x <= s.0);
            let on_column = x == t.0 && (s.1 <= y && y <= t.1 || t.1 <= y && y <= s.1);
            let barrier = before == Terrain::Water || before == Terrain::Wall;
            after == (if barrier && (on_row || on_column) && !(x == t.0 && y == t.1) {
                Terrain::Dirt
            } else {
                before
            })
        }),
{
    assert(tile_index((x, y)) == y * 20 + x);
    lemma_tile_index((x, y));
}

/// How many columns and rows lie between two cells, together.
pub open spec fn apart(a: Cell, b: Cell) -> int {
    let dx = a.0 - b.0;
    let dy = a.1 - b.1;
    (if dx >= 0 {
        dx
    } else {
        -dx
    }) + (if dy >= 0 {
        dy
    } else {
        -dy
    })
}

/// True of a cell that comes before another when the map is read row by row.
pub open spec fn read_before(a: Cell, b: Cell) -> bool {
    a.1 < b.1 || a.1 == b.1 && a.0 < b.0
}

/// As long as there are cells that can be walked on and are not reached from the start, the first
/// of them, read row by row, is linked to the reached cell that is closest to it; of several, to
/// the first.
pub proof fn law_stranded_cells_are_linked(tiles: Seq<Terrain>, c: Cell) -> (link: (Cell, Cell))
    requires
        tiles.len() == 300,
        passable_at(tiles, grid::start_cell()),
        passable_at(tiles, c),
        !walk::reachable(tiles, grid::start_cell(), c),
    ensures
        passable_at(tiles, link.0),
        !walk::reachable(tiles, grid::start_cell(), link.0),
        forall|d: Cell| #[trigger]
            passable_at(tiles, d) && !walk::reachable(tiles, grid::start_cell(), d)
                ==> !read_before(d, link.0),
        walk::reachable(tiles, grid::start_cell(), link.1),
        forall|d: Cell| #[trigger]
            walk::reachable(tiles, grid::start_cell(), d) ==> apart(link.0, link.1) < apart(
                link.0,
                d,
            ) || apart(link.0, link.1) == apart(link.0, d) && !read_before(d, link.1),
        connected(tiles) == connected(carved(tiles, link.0, link.1)),
{
    assert(stranded(tiles, c));
    lemma_linked(tiles);
    lemma_first_stranded_exists(tiles, c);
    let s = choose|s: Cell| first_stranded(tiles, s);
    walk::lemma_reach_self(tiles, grid::start_cell());
    lemma_closest_exists(tiles, s, grid::start_cell());
    let t = choose|t: Cell| closest_reached(tiles, s, t);
    assert forall|d: Cell| #[trigger]
        passable_at(tiles, d) && !walk::reachable(
            tiles,
            grid::start_cell(),
            d,
        ) implies !read_before(d, s) by {
        assert(stranded(tiles, d));
        lemma_tile_index(d);
        lemma_tile_index(s);
    }
    assert forall|d: Cell| #[trigger] walk::reachable(tiles, grid::start_cell(), d) implies apart(
        s,
        t,
    ) < apart(s, d) || apart(s, t) == apart(s, d) && !read_before(d, t) by {
        walk::lemma_reach_passable(tiles, grid::start_cell(), d);
        walk::lemma_reach_passable(tiles, grid::start_cell(), t);
        lemma_tile_index(d);
        lemma_tile_index(t);
        assert(distance(s, d) == apart(s, d));
        assert(distance(s, t) == apart(s, t));
    }
    (s, t)
}

/// The hash mixes the two coordinates, each times a large prime, three times over.
pub proof fn law_hash_is_mixed(x: i32, y: i32, a: u32, b: u32, c: u32)
    requires
        a == (x as u32).wrapping_mul(73_856_093) ^ (y as u32).wrapping_mul(19_349_663),
        b == (a ^ (a >> 16)).wrapping_mul(2_246_822_507),
        c == (b ^ (b >> 13)).wrapping_mul(3_266_489_909),
    ensures
        hash_of(x, y) == c ^ (c >> 16),
{
}

} // verus!
