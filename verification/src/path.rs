//! Finding ways over the map by breadth-first search.

use std::collections::VecDeque;
use vstd::prelude::*;
use crate::grid;
use crate::grid::{cardinal_dirs, Cell, Direction, GridPos};
use crate::tiles::TileSet;
use crate::walk;
use crate::world;
use crate::world::{Terrain, World};

verus! {

/// True if one of the walks ends at `c` and comes no later than `bound`.
spec fn covers(walks: Seq<Seq<Direction>>, start: Cell, c: Cell, bound: nat) -> bool {
    exists|m: int|
        0 <= m < walks.len() && grid::walk_end(start, #[trigger] walks[m]) == c && grid::walk_rank(
            walks[m],
        ) <= bound
}

/// True if the step `e` from the end of walk `k`, where it is open, leads to a covered cell.
spec fn step_covered(
    tiles: Seq<Terrain>,
    blocked: Set<Cell>,
    start: Cell,
    walks: Seq<Seq<Direction>>,
    k: int,
    e: Direction,
) -> bool {
    let c = grid::neighbor(grid::walk_end(start, walks[k]), e);
    walk::enterable(tiles, blocked, c) ==> covers(
        walks,
        start,
        c,
        4 * grid::walk_rank(walks[k]) + 1 + e.rank(),
    )
}

/// State of a breadth-first search that has found the ends of `walks`, before the steps from the
/// end of walk `h`, of which the first `r` have been tried already.
spec fn in_order(
    tiles: Seq<Terrain>,
    blocked: Set<Cell>,
    start: Cell,
    walks: Seq<Seq<Direction>>,
    h: int,
    r: nat,
) -> bool {
    &&& 0 <= h <= walks.len()
    &&& r <= 4
    &&& h == walks.len() ==> r == 0
    &&& walks.len() > 0
    &&& walks[0].len() == 0
    &&& forall|m: int|
        0 <= m < walks.len() ==> walk::open_walk(tiles, blocked, start, #[trigger] walks[m])
    &&& forall|m: int, n: int|
        0 <= m < n < walks.len() ==> grid::walk_rank(#[trigger] walks[m]) < grid::walk_rank(
            #[trigger] walks[n],
        )
    &&& forall|m: int, n: int|
        0 <= m < n < walks.len() ==> grid::walk_end(start, #[trigger] walks[m]) != grid::walk_end(
            start,
            #[trigger] walks[n],
        )
    &&& h < walks.len() ==> forall|m: int|
        0 <= m < walks.len() ==> grid::walk_rank(#[trigger] walks[m]) < 4 * grid::walk_rank(
            walks[h],
        ) + 1 + r
    &&& forall|k: int, e: Direction|
        0 <= k < walks.len() && (k < h || k == h && e.rank() < r) ==> #[trigger] step_covered(
            tiles,
            blocked,
            start,
            walks,
            k,
            e,
        )
}

/// A step that leads to no new cell leaves the search in order.
proof fn lemma_step_known(
    tiles: Seq<Terrain>,
    blocked: Set<Cell>,
    start: Cell,
    walks: Seq<Seq<Direction>>,
    h: int,
    d: Direction,
)
    requires
        in_order(tiles, blocked, start, walks, h, d.rank()),
        h < walks.len(),
        ({
            let c = grid::neighbor(grid::walk_end(start, walks[h]), d);
            walk::enterable(tiles, blocked, c) ==> exists|m: int|
                0 <= m < walks.len() && grid::walk_end(start, #[trigger] walks[m]) == c
        }),
    ensures
        in_order(tiles, blocked, start, walks, h, d.rank() + 1),
{
    assert(step_covered(tiles, blocked, start, walks, h, d));
    assert forall|k: int, e: Direction|
        0 <= k < walks.len() && (k < h || k == h && e.rank() < d.rank() + 1) implies #[trigger] step_covered(
        tiles, blocked, start, walks, k, e) by {
        if k == h && e.rank() == d.rank() {
            assert(e == d);
        }
    }
}

/// A step to a new cell leaves the search in order, with the new cell at the end of the list.
proof fn lemma_step_found(
    tiles: Seq<Terrain>,
    blocked: Set<Cell>,
    start: Cell,
    walks: Seq<Seq<Direction>>,
    h: int,
    d: Direction,
)
    requires
        in_order(tiles, blocked, start, walks, h, d.rank()),
        h < walks.len(),
        walk::enterable(tiles, blocked, grid::neighbor(grid::walk_end(start, walks[h]), d)),
        forall|m: int|
            0 <= m < walks.len() ==> grid::walk_end(start, #[trigger] walks[m]) != grid::neighbor(
                grid::walk_end(start, walks[h]),
                d,
            ),
    ensures
        in_order(tiles, blocked, start, walks.push(walks[h].push(d)), h, d.rank() + 1),
{
    let w = walks[h].push(d);
    let after = walks.push(w);
    grid::lemma_push(start, walks[h], d);
    walk::lemma_push_open(tiles, blocked, start, walks[h], d);
    assert(after[walks.len() as int] == w);
    assert forall|k: int, e: Direction|
        0 <= k < after.len() && (k < h || k == h && e.rank() < d.rank() + 1) implies #[trigger] step_covered(
        tiles, blocked, start, after, k, e) by {
        let c = grid::neighbor(grid::walk_end(start, walks[k]), e);
        if k == h && e.rank() == d.rank() {
            assert(e == d);
            assert(grid::walk_end(start, after[walks.len() as int]) == c);
        } else if walk::enterable(tiles, blocked, c) {
            assert(step_covered(tiles, blocked, start, walks, k, e));
            let m = choose|m: int|
                0 <= m < walks.len() && grid::walk_end(start, #[trigger] walks[m]) == c
                    && grid::walk_rank(walks[m]) <= 4 * grid::walk_rank(walks[k]) + 1 + e.rank();
            assert(after[m] == walks[m]);
        }
    }
    assert forall|m: int| 0 <= m < after.len() implies grid::walk_rank(#[trigger] after[m]) < 4
        * grid::walk_rank(after[h]) + 1 + (d.rank() + 1) by {
        if m < walks.len() {
            assert(after[m] == walks[m]);
        }
    }
}

/// Once all four steps from one cell have been tried, the search goes on with the next.
proof fn lemma_next_cell(
    tiles: Seq<Terrain>,
    blocked: Set<Cell>,
    start: Cell,
    walks: Seq<Seq<Direction>>,
    h: int,
)
    requires
        in_order(tiles, blocked, start, walks, h, 4),
        h < walks.len(),
    ensures
        in_order(tiles, blocked, start, walks, h + 1, 0),
{
    if h + 1 < walks.len() {
        assert(grid::walk_rank(walks[h]) < grid::walk_rank(walks[h + 1]));
    }
    assert forall|k: int, e: Direction|
        0 <= k < walks.len() && (k < h + 1 || k == h + 1 && e.rank() < 0) implies #[trigger] step_covered(
        tiles, blocked, start, walks, k, e) by {
        assert(e.rank() < 4);
    }
}

/// Every open walk that comes before the step to be tried next ends at a cell already found,
/// by a walk that comes no later.
proof fn lemma_covered(
    tiles: Seq<Terrain>,
    blocked: Set<Cell>,
    start: Cell,
    walks: Seq<Seq<Direction>>,
    h: int,
    r: nat,
    w: Seq<Direction>,
)
    requires
        in_order(tiles, blocked, start, walks, h, r),
        walk::open_walk(tiles, blocked, start, w),
        h < walks.len() ==> grid::walk_rank(w) < 4 * grid::walk_rank(walks[h]) + 1 + r,
    ensures
        covers(walks, start, grid::walk_end(start, w), grid::walk_rank(w)),
    decreases w.len(),
{
    if w.len() == 0 {
        assert(walks[0] =~= w);
    } else {
        let u = w.drop_last();
        let e = w.last();
        lemma_covered(tiles, blocked, start, walks, h, r, u);
        let k = choose|k: int|
            0 <= k < walks.len() && grid::walk_end(start, #[trigger] walks[k]) == grid::walk_end(
                start,
                u,
            ) && grid::walk_rank(walks[k]) <= grid::walk_rank(u);
        if k > h {
            assert(grid::walk_rank(walks[h]) < grid::walk_rank(walks[k]));
        }
        assert(step_covered(tiles, blocked, start, walks, k, e));
        let m = choose|m: int|
            0 <= m < walks.len() && grid::walk_end(start, #[trigger] walks[m]) == grid::walk_end(
                start,
                w,
            ) && grid::walk_rank(walks[m]) <= 4 * grid::walk_rank(walks[k]) + 1 + e.rank();
        assert(grid::walk_rank(walks[m]) <= grid::walk_rank(w));
    }
}

/// The cells found are no more than the tiles of the map and the starting cell.
proof fn lemma_walks_bound(
    tiles: Seq<Terrain>,
    blocked: Set<Cell>,
    start: Cell,
    walks: Seq<Seq<Direction>>,
    h: int,
    r: nat,
)
    requires
        in_order(tiles, blocked, start, walks, h, r),
    ensures
        walks.len() <= world::tile_count() + 1,
{
    let ends = Seq::new(walks.len(), |m: int| grid::walk_end(start, walks[m]));
    assert forall|i: int| 0 <= i < ends.len() implies grid::in_grid(#[trigger] ends[i]) || ends[i]
        == start by {
        assert(walk::open_walk(tiles, blocked, start, walks[i]));
    }
    assert forall|i: int, j: int|
        0 <= i < ends.len() && 0 <= j < ends.len() && i != j implies ends[i] != ends[j] by {
        let a = walks[i];
        let b = walks[j];
    }
    walk::lemma_distinct_cells_bound(ends, start);
}

/// Cells found by breadth-first search, in the order in which they were found.
struct Discovery {
    /// The cells found so far.
    cells: Vec<GridPos>,
    /// How each cell was found: from the cell at a lower place, by one step.
    came_from: Vec<Option<(usize, Direction)>>,
    /// The same cells, as a set.
    seen: TileSet,
    /// The walk by which each cell was found.
    walks: Ghost<Seq<Seq<Direction>>>,
}

impl Discovery {
    spec fn shape(&self, start: Cell) -> bool {
        let walks = self.walks@;
        &&& self.cells@.len() == walks.len()
        &&& self.came_from@.len() == walks.len()
        &&& forall|m: int|
            0 <= m < walks.len() ==> (#[trigger] self.cells@[m])@ == grid::walk_end(start, walks[m])
        &&& forall|m: int|
            0 <= m < walks.len() ==> match #[trigger] self.came_from@[m] {
                None => walks[m].len() == 0,
                Some((j, d)) => j < m && walks[m] == walks[j as int].push(d),
            }
        &&& forall|c: Cell| #[trigger]
            self.seen@.contains(c) <==> exists|m: int|
                0 <= m < walks.len() && grid::walk_end(start, #[trigger] walks[m]) == c
    }

    spec fn inv(
        &self,
        tiles: Seq<Terrain>,
        blocked: Set<Cell>,
        start: Cell,
        h: int,
        r: nat,
    ) -> bool {
        self.shape(start) && in_order(tiles, blocked, start, self.walks@, h, r)
    }

    /// The search that has found its starting cell and nothing else.
    fn begin(tiles: Ghost<Seq<Terrain>>, blocked: Ghost<Set<Cell>>, start: GridPos) -> (s: Self)
        ensures
            s.inv(tiles@, blocked@, start@, 0, 0),
            s.walks@ == seq![Seq::<Direction>::empty()],
            s.cells@ == seq![start],
    {
        let mut cells: Vec<GridPos> = Vec::new();
        cells.push(start);
        let mut came_from: Vec<Option<(usize, Direction)>> = Vec::new();
        came_from.push(None);
        let mut seen = TileSet::new();
        seen.insert(start);
        let ghost walks = seq![Seq::<Direction>::empty()];
        let s = Discovery { cells, came_from, seen, walks: Ghost(walks) };
        proof {
            s.lemma_begun(start);
        }
        s
    }

    /// The search that has found its starting cell has the right shape.
    proof fn lemma_begun(&self, start: GridPos)
        requires
            self.cells@ == seq![start],
            self.came_from@ == seq![None::<(usize, Direction)>],
            self.seen@ == Set::empty().insert(start@),
            self.walks@ == seq![Seq::<Direction>::empty()],
        ensures
            self.shape(start@),
    {
        let walks = self.walks@;
        assert(walks[0].len() == 0);
        assert(grid::walk_end(start@, walks[0]) == start@);
        assert(self.came_from@[0] is None);
        assert forall|c: Cell| self.seen@.contains(c) implies exists|m: int|
            0 <= m < walks.len() && grid::walk_end(start@, #[trigger] walks[m]) == c by {
            assert(grid::walk_end(start@, walks[0]) == c);
        }
    }

    /// Tries one step from the cell at place `h`; true if it led to a cell not seen before.
    fn try_step(
        &mut self,
        world: &World,
        blocked: &TileSet,
        start: Ghost<Cell>,
        h: usize,
        dir: Direction,
    ) -> (found: bool)
        requires
            world.wf(),
            old(self).inv(world.tiles@, blocked@, start@, h as int, dir.rank()),
            h < old(self).walks@.len(),
            grid::steppable(start@),
        ensures
            final(self).inv(world.tiles@, blocked@, start@, h as int, dir.rank() + 1),
            final(self).walks@ == (if found {
                old(self).walks@.push(old(self).walks@[h as int].push(dir))
            } else {
                old(self).walks@
            }),
            final(self).cells@.len() == final(self).walks@.len(),
            forall|m: int|
                0 <= m < old(self).cells@.len() ==> #[trigger] final(self).cells@[m] == old(
                    self,
                ).cells@[m],
    {
        let cur = self.cells[h];
        let (dx, dy) = dir.delta();
        proof {
            let w = self.walks@[h as int];
            if w.len() > 0 {
                assert(walk::open_walk(world.tiles@, blocked@, start@, w));
            }
        }
        let next = GridPos { x: cur.x + dx, y: cur.y + dy };
        proof {
            if self.seen@.contains(next@) || !walk::enterable(world.tiles@, blocked@, next@) {
                lemma_step_known(world.tiles@, blocked@, start@, self.walks@, h as int, dir);
            } else {
                lemma_step_found(world.tiles@, blocked@, start@, self.walks@, h as int, dir);
            }
        }
        if self.seen.contains(&next) {
            return false;
        }
        match world.get(next.x, next.y) {
            Some(t) => {
                if !t.passable() {
                    return false;
                }
            },
            None => {
                return false;
            },
        }
        if blocked.contains(&next) {
            return false;
        }
        self.seen.insert(next);
        self.cells.push(next);
        self.came_from.push(Some((h, dir)));
        proof {
            let w = self.walks@[h as int].push(dir);
            grid::lemma_push(start@, self.walks@[h as int], dir);
            self.walks@ = self.walks@.push(w);
            assert(self.walks@[self.walks@.len() - 1] == w);
            assert forall|c: Cell| #[trigger] self.seen@.contains(c) <==> exists|m: int|
                0 <= m < self.walks@.len() && grid::walk_end(start@, #[trigger] self.walks@[m]) == c by {
                let before = old(self).walks@;
                if old(self).seen@.contains(c) {
                    let m = choose|m: int|
                        0 <= m < before.len() && grid::walk_end(start@, #[trigger] before[m]) == c;
                    assert(self.walks@[m] == before[m]);
                }
                if exists|m: int|
                    0 <= m < self.walks@.len() && grid::walk_end(start@, #[trigger] self.walks@[m]) == c {
                    let m = choose|m: int|
                        0 <= m < self.walks@.len() && grid::walk_end(start@, #[trigger] self.walks@[m]) == c;
                    if m < before.len() {
                        assert(self.walks@[m] == before[m]);
                    }
                }
            }
        }
        true
    }
}

/// The walk by which a cell was found, read back from the records of the search.
fn trace_back(found: &Discovery, start: Ghost<Cell>, last: usize) -> (path: VecDeque<Direction>)
    requires
        found.shape(start@),
        last < found.walks@.len(),
    ensures
        path@ == found.walks@[last as int],
{
    let mut path: VecDeque<Direction> = VecDeque::new();
    let mut at: usize = last;
    assert(found.walks@[last as int] =~= found.walks@[last as int] + path@);
    loop
        invariant
            found.shape(start@),
            last < found.walks@.len(),
            at < found.walks@.len(),
            found.walks@[last as int] == found.walks@[at as int] + path@,
        decreases at,
    {
        match found.came_from[at] {
            None => {
                assert(found.walks@[last as int] =~= path@);
                return path;
            },
            Some((prev, dir)) => {
                path.push_front(dir);
                assert(found.walks@[last as int] =~= found.walks@[prev as int] + path@);
                at = prev;
            },
        }
    }
}

/// Breadth-first search from `start` over passable cells outside `blocked` for a cell that
/// `is_target` accepts. The path found is the first of all walks to such a cell, so it leads to
/// a closest one; it is empty if `start` itself is accepted. There is no path only if no walk
/// leads to an accepted cell.
pub fn find_path(
    world: &World,
    start: GridPos,
    is_target: impl Fn(GridPos) -> bool,
    blocked: &TileSet,
) -> (path: Option<VecDeque<Direction>>)
    requires
        world.wf(),
        grid::steppable(start@) || forall|b: bool| call_ensures(is_target, (start,), b) ==> b,
        forall|p: GridPos| call_requires(is_target, (p,)),
    ensures
        match path {
            Some(p) => {
                &&& walk::open_walk(world.tiles@, blocked@, start@, p@)
                &&& call_ensures(is_target, (walk::pos_of(grid::walk_end(start@, p@)),), true)
                &&& forall|w: Seq<Direction>| #[trigger]
                    walk::open_walk(world.tiles@, blocked@, start@, w) && grid::walk_rank(w)
                        < grid::walk_rank(p@) ==> call_ensures(
                        is_target,
                        (walk::pos_of(grid::walk_end(start@, w)),),
                        false,
                    )
            },
            None => forall|w: Seq<Direction>| #[trigger]
                walk::open_walk(world.tiles@, blocked@, start@, w) ==> call_ensures(
                    is_target,
                    (walk::pos_of(grid::walk_end(start@, w)),),
                    false,
                ),
        },
{
    if is_target(start) {
        let path: VecDeque<Direction> = VecDeque::new();
        assert(walk::pos_of(grid::walk_end(start@, path@)) == start);
        return Some(path);
    }
    let dirs = cardinal_dirs();
    let mut found = Discovery::begin(Ghost(world.tiles@), Ghost(blocked@), start);
    let mut head: usize = 0;
    while head < found.cells.len()
        invariant
            world.wf(),
            grid::steppable(start@),
            forall|p: GridPos| call_requires(is_target, (p,)),
            forall|i: int| 0 <= i < 4 ==> (#[trigger] dirs@[i]).rank() == i,
            found.inv(world.tiles@, blocked@, start@, head as int, 0),
            forall|m: int|
                0 <= m < found.cells@.len() ==> call_ensures(
                    is_target,
                    (#[trigger] found.cells@[m],),
                    false,
                ),
        decreases world::tile_count() + 1 - head,
    {
        proof {
            lemma_walks_bound(world.tiles@, blocked@, start@, found.walks@, head as int, 0);
        }
        let mut r: usize = 0;
        while r < 4
            invariant
                world.wf(),
                grid::steppable(start@),
                forall|p: GridPos| call_requires(is_target, (p,)),
                forall|i: int| 0 <= i < 4 ==> (#[trigger] dirs@[i]).rank() == i,
                r <= 4,
                head < found.cells@.len(),
                found.inv(world.tiles@, blocked@, start@, head as int, r as nat),
                forall|m: int|
                    0 <= m < found.cells@.len() ==> call_ensures(
                        is_target,
                        (#[trigger] found.cells@[m],),
                        false,
                    ),
            decreases 4 - r,
        {
            let dir = dirs[r];
            let ghost before = found;
            if found.try_step(world, blocked, Ghost(start@), head, dir) {
                let last: usize = found.cells.len() - 1;
                let cell = found.cells[last];
                if is_target(cell) {
                    let path = trace_back(&found, Ghost(start@), last);
                    proof {
                        let tiles = world.tiles@;
                        assert(walk::pos_of(grid::walk_end(start@, path@)) == cell);
                        grid::lemma_push(start@, before.walks@[head as int], dir);
                        assert forall|w: Seq<Direction>| #[trigger]
                            walk::open_walk(tiles, blocked@, start@, w) && grid::walk_rank(w)
                                < grid::walk_rank(path@) implies call_ensures(
                            is_target,
                            (walk::pos_of(grid::walk_end(start@, w)),),
                            false,
                        ) by {
                            lemma_covered(
                                tiles,
                                blocked@,
                                start@,
                                before.walks@,
                                head as int,
                                r as nat,
                                w,
                            );
                            lemma_tested(&before, start@, w);
                        }
                    }
                    return Some(path);
                }
            }
            r += 1;
        }
        proof {
            lemma_next_cell(world.tiles@, blocked@, start@, found.walks@, head as int);
        }
        head += 1;
    }
    proof {
        assert forall|w: Seq<Direction>| #[trigger]
            walk::open_walk(world.tiles@, blocked@, start@, w) implies call_ensures(
            is_target,
            (walk::pos_of(grid::walk_end(start@, w)),),
            false,
        ) by {
            lemma_covered(world.tiles@, blocked@, start@, found.walks@, head as int, 0, w);
            lemma_tested(&found, start@, w);
        }
    }
    None
}

/// A covered cell is one of those found.
proof fn lemma_tested(found: &Discovery, start: Cell, w: Seq<Direction>)
    requires
        found.shape(start),
        covers(found.walks@, start, grid::walk_end(start, w), grid::walk_rank(w)),
    ensures
        exists|m: int|
            0 <= m < found.cells@.len() && #[trigger] found.cells@[m] == walk::pos_of(
                grid::walk_end(start, w),
            ),
{
    let m = choose|m: int|
        0 <= m < found.walks@.len() && grid::walk_end(start, #[trigger] found.walks@[m])
            == grid::walk_end(start, w) && grid::walk_rank(found.walks@[m]) <= grid::walk_rank(w);
    assert(found.cells@[m] == walk::pos_of(grid::walk_end(start, w)));
}

/// Every walk by which a cell was found is the first one to that cell.
proof fn lemma_found_first(
    tiles: Seq<Terrain>,
    blocked: Set<Cell>,
    start: Cell,
    walks: Seq<Seq<Direction>>,
    h: int,
    r: nat,
    m: int,
)
    requires
        in_order(tiles, blocked, start, walks, h, r),
        0 <= m < walks.len(),
    ensures
        walk::first_walk(tiles, blocked, start, walks[m]),
{
    assert forall|v: Seq<Direction>| #[trigger]
        walk::open_walk(tiles, blocked, start, v) && grid::walk_end(start, v) == grid::walk_end(
            start,
            walks[m],
        ) implies grid::walk_rank(walks[m]) <= grid::walk_rank(v) by {
        if grid::walk_rank(v) < grid::walk_rank(walks[m]) {
            lemma_covered(tiles, blocked, start, walks, h, r, v);
            let k = choose|k: int|
                0 <= k < walks.len() && grid::walk_end(start, #[trigger] walks[k])
                    == grid::walk_end(start, v) && grid::walk_rank(walks[k]) <= grid::walk_rank(v);
            assert(k < m || m < k);
        }
    }
}

/// A first walk that comes before the step to be tried next is one of those found.
proof fn lemma_first_found(
    tiles: Seq<Terrain>,
    blocked: Set<Cell>,
    start: Cell,
    walks: Seq<Seq<Direction>>,
    h: int,
    r: nat,
    w: Seq<Direction>,
) -> (m: int)
    requires
        in_order(tiles, blocked, start, walks, h, r),
        walk::first_walk(tiles, blocked, start, w),
        h < walks.len() ==> grid::walk_rank(w) < 4 * grid::walk_rank(walks[h]) + 1 + r,
    ensures
        0 <= m < walks.len(),
        walks[m] == w,
{
    lemma_covered(tiles, blocked, start, walks, h, r, w);
    let m = choose|m: int|
        0 <= m < walks.len() && grid::walk_end(start, #[trigger] walks[m]) == grid::walk_end(
            start,
            w,
        ) && grid::walk_rank(walks[m]) <= grid::walk_rank(w);
    assert(walk::open_walk(tiles, blocked, start, walks[m]));
    grid::law_walk_rank_is_injective(walks[m], w);
    m
}

/// True if `ws` lists those of the first `h` walks that end outside `excluded`.
spec fn collected(
    start: Cell,
    excluded: Set<Cell>,
    walks: Seq<Seq<Direction>>,
    h: int,
    ws: Seq<Seq<Direction>>,
) -> bool {
    &&& forall|i: int|
        0 <= i < ws.len() ==> !excluded.contains(grid::walk_end(start, #[trigger] ws[i])) && (
        exists|m: int| 0 <= m < h && #[trigger] walks[m] == ws[i])
    &&& forall|i: int, j: int|
        0 <= i < j < ws.len() ==> grid::walk_rank(#[trigger] ws[i]) < grid::walk_rank(
            #[trigger] ws[j],
        )
    &&& forall|m: int|
        0 <= m < h && !excluded.contains(grid::walk_end(start, #[trigger] walks[m]))
            ==> ws.contains(walks[m])
}

/// What has been collected once the search is over, or once `n` cells have been collected, is
/// the list of nearest cells.
proof fn lemma_collected(
    tiles: Seq<Terrain>,
    start: Cell,
    excluded: Set<Cell>,
    walks: Seq<Seq<Direction>>,
    h: int,
    n: nat,
    ws: Seq<Seq<Direction>>,
    upto: int,
)
    requires
        in_order(tiles, Set::empty(), start, walks, h, 0),
        upto == h || upto == h + 1,
        upto <= walks.len(),
        collected(start, excluded, walks, upto, ws),
        ws.len() <= n,
        h == walks.len() || ws.len() == n && n > 0 && upto == h + 1 && ws.last() == walks[h],
    ensures
        walk::nearest_walks(tiles, start, excluded, n, ws),
{
    assert forall|i: int| 0 <= i < ws.len() implies walk::first_walk(
        tiles,
        Set::empty(),
        start,
        #[trigger] ws[i],
    ) by {
        let m = choose|m: int| 0 <= m < upto && #[trigger] walks[m] == ws[i];
        lemma_found_first(tiles, Set::empty(), start, walks, h, 0, m);
    }
    assert forall|w: Seq<Direction>| #[trigger]
        walk::first_walk(tiles, Set::empty(), start, w) && !excluded.contains(
            grid::walk_end(start, w),
        ) && (ws.len() < n || ws.len() > 0 && grid::walk_rank(w) <= grid::walk_rank(
            ws.last(),
        )) implies ws.contains(w) by {
        let m = lemma_first_found(tiles, Set::empty(), start, walks, h, 0, w);
        if m >= upto {
            assert(grid::walk_rank(walks[h]) < grid::walk_rank(walks[m]));
        }
    }
}

/// How many start positions are looked for when `n` are asked for: an excluded start is not
/// handed out, and takes its place all the same.
pub open spec fn places(n: nat, excluded: Set<Cell>, start: Cell) -> nat {
    if n > 0 && excluded.contains(start) {
        (n - 1) as nat
    } else {
        n
    }
}

/// Breadth-first search outward from `start` over passable cells for up to `n` cells outside
/// `excluded`. The search goes through excluded cells. If `start` itself is excluded there is one
/// cell less; if it is not passable there are none; and if fewer cells than that are reachable,
/// there are as many as are.
pub fn worker_start_positions(
    world: &World,
    start: GridPos,
    n: usize,
    excluded: &TileSet,
) -> (out: Vec<GridPos>)
    requires
        world.wf(),
    ensures
        !world::passable_at(world.tiles@, start@) ==> out@.len() == 0,
        world::passable_at(world.tiles@, start@) ==> exists|ws: Seq<Seq<Direction>>|
            {
                &&& #[trigger] walk::nearest_walks(
                    world.tiles@,
                    start@,
                    excluded@,
                    places(n as nat, excluded@, start@),
                    ws,
                )
                &&& out@.len() == ws.len()
                &&& forall|i: int|
                    0 <= i < ws.len() ==> (#[trigger] out@[i])@ == grid::walk_end(start@, ws[i])
            },
{
    let mut out: Vec<GridPos> = Vec::new();
    let ghost mut ws: Seq<Seq<Direction>> = Seq::empty();
    let passable = match world.get(start.x, start.y) {
        Some(t) => t.passable(),
        None => false,
    };
    let wanted: usize = if n > 0 && excluded.contains(&start) {
        n - 1
    } else {
        n
    };
    if wanted == 0 || !passable {
        assert(wanted == places(n as nat, excluded@, start@));
        assert(wanted == 0 ==> walk::nearest_walks(
            world.tiles@,
            start@,
            excluded@,
            places(n as nat, excluded@, start@),
            ws,
        ));
        return out;
    }
    let dirs = cardinal_dirs();
    let unblocked = TileSet::new();
    let mut found = Discovery::begin(Ghost(world.tiles@), Ghost(unblocked@), start);
    let mut head: usize = 0;
    while head < found.cells.len()
        invariant
            world.wf(),
            grid::in_grid(start@),
            world::passable_at(world.tiles@, start@),
            unblocked@ == Set::<Cell>::empty(),
            forall|i: int| 0 <= i < 4 ==> (#[trigger] dirs@[i]).rank() == i,
            found.inv(world.tiles@, unblocked@, start@, head as int, 0),
            collected(start@, excluded@, found.walks@, head as int, ws),
            out@.len() == ws.len(),
            ws.len() < wanted,
            wanted == places(n as nat, excluded@, start@),
            forall|i: int|
                0 <= i < ws.len() ==> (#[trigger] out@[i])@ == grid::walk_end(start@, ws[i]),
        decreases world::tile_count() + 1 - head,
    {
        proof {
            lemma_walks_bound(world.tiles@, unblocked@, start@, found.walks@, head as int, 0);
        }
        let cell = found.cells[head];
        let ghost w = found.walks@[head as int];
        let ghost ws0 = ws;
        if !excluded.contains(&cell) {
            out.push(cell);
            proof {
                ws = ws.push(w);
                lemma_collect(start@, excluded@, found.walks@, head as int, ws0);
            }
            if out.len() == wanted {
                proof {
                    lemma_collected(
                        world.tiles@,
                        start@,
                        excluded@,
                        found.walks@,
                        head as int,
                        wanted as nat,
                        ws,
                        head + 1,
                    );
                }
                return out;
            }
        }
        let mut r: usize = 0;
        while r < 4
            invariant
                world.wf(),
                grid::in_grid(start@),
                unblocked@ == Set::<Cell>::empty(),
                forall|i: int| 0 <= i < 4 ==> (#[trigger] dirs@[i]).rank() == i,
                r <= 4,
                head < found.cells@.len(),
                found.inv(world.tiles@, unblocked@, start@, head as int, r as nat),
                collected(start@, excluded@, found.walks@, head + 1, ws),
            decreases 4 - r,
        {
            let dir = dirs[r];
            let ghost before = found.walks@;
            found.try_step(world, &unblocked, Ghost(start@), head, dir);
            proof {
                assert forall|i: int| 0 <= i < ws.len() implies exists|m: int|
                    0 <= m < head + 1 && #[trigger] found.walks@[m] == #[trigger] ws[i] by {
                    let m = choose|m: int| 0 <= m < head + 1 && #[trigger] before[m] == ws[i];
                    assert(found.walks@[m] == ws[i]);
                }
                assert forall|m: int|
                    0 <= m < head + 1 && !excluded@.contains(
                        grid::walk_end(start@, #[trigger] found.walks@[m]),
                    ) implies ws.contains(found.walks@[m]) by {
                    assert(before[m] == found.walks@[m]);
                }
            }
            r += 1;
        }
        proof {
            lemma_next_cell(world.tiles@, unblocked@, start@, found.walks@, head as int);
        }
        head += 1;
    }
    proof {
        lemma_collected(
            world.tiles@,
            start@,
            excluded@,
            found.walks@,
            head as int,
            wanted as nat,
            ws,
            head as int,
        );
    }
    out
}

/// Collecting one more walk that ends outside `excluded`.
proof fn lemma_collect(
    start: Cell,
    excluded: Set<Cell>,
    walks: Seq<Seq<Direction>>,
    h: int,
    ws: Seq<Seq<Direction>>,
)
    requires
        0 <= h < walks.len(),
        collected(start, excluded, walks, h, ws),
        !excluded.contains(grid::walk_end(start, walks[h])),
        forall|m: int, n: int|
            0 <= m < n < walks.len() ==> grid::walk_rank(#[trigger] walks[m]) < grid::walk_rank(
                #[trigger] walks[n],
            ),
    ensures
        collected(start, excluded, walks, h + 1, ws.push(walks[h])),
{
    let after = ws.push(walks[h]);
    assert(after[ws.len() as int] == walks[h]);
    assert forall|i: int| 0 <= i < after.len() implies !excluded.contains(
        grid::walk_end(start, #[trigger] after[i]),
    ) && exists|m: int| 0 <= m < h + 1 && #[trigger] walks[m] == after[i] by {
        if i < ws.len() {
            assert(after[i] == ws[i]);
            let m = choose|m: int| 0 <= m < h && #[trigger] walks[m] == ws[i];
            assert(walks[m] == after[i]);
        } else {
            assert(walks[h] == after[i]);
        }
    }
    assert forall|m: int|
        0 <= m < h + 1 && !excluded.contains(
            grid::walk_end(start, #[trigger] walks[m]),
        ) implies after.contains(walks[m]) by {
        if m < h {
            let i = choose|i: int| 0 <= i < ws.len() && ws[i] == walks[m];
            assert(after[i] == walks[m]);
        }
    }
    assert forall|i: int, j: int| 0 <= i < j < after.len() implies grid::walk_rank(
        #[trigger] after[i],
    ) < grid::walk_rank(#[trigger] after[j]) by {
        assert(after[i] == ws[i]);
        if j == ws.len() {
            let m = choose|m: int| 0 <= m < h && #[trigger] walks[m] == ws[i];
            assert(grid::walk_rank(walks[m]) < grid::walk_rank(walks[h]));
        }
    }
}

} // verus!
