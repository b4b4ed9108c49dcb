//! Walks over open terrain.

use vstd::prelude::*;
use vstd::set_lib::*;
use crate::grid;
use crate::grid::{Cell, Direction, GridPos};
use crate::world;
use crate::world::Terrain;

verus! {

/// True if a worker may step onto `c`: passable terrain that nothing in `blocked` holds.
pub open spec fn enterable(tiles: Seq<Terrain>, blocked: Set<Cell>, c: Cell) -> bool {
    world::passable_at(tiles, c) && !blocked.contains(c)
}

/// True if every step of the walk `w` from `c` lands on an enterable cell. Nothing is asked
/// of `c` itself.
pub open spec fn open_walk(
    tiles: Seq<Terrain>,
    blocked: Set<Cell>,
    c: Cell,
    w: Seq<Direction>,
) -> bool
    decreases w.len(),
{
    w.len() == 0 || (open_walk(tiles, blocked, c, w.drop_last()) && enterable(
        tiles,
        blocked,
        grid::walk_end(c, w),
    ))
}

/// True if `w` is the first of all open walks from `c` to where it ends.
pub open spec fn first_walk(
    tiles: Seq<Terrain>,
    blocked: Set<Cell>,
    c: Cell,
    w: Seq<Direction>,
) -> bool {
    &&& open_walk(tiles, blocked, c, w)
    &&& forall|v: Seq<Direction>| #[trigger]
        open_walk(tiles, blocked, c, v) && grid::walk_end(c, v) == grid::walk_end(c, w)
            ==> grid::walk_rank(w) <= grid::walk_rank(v)
}

/// True if `ws` lists, first to last, the first walks from `c` to cells outside `excluded`:
/// the first `n` of them, or all of them where there are fewer.
pub open spec fn nearest_walks(
    tiles: Seq<Terrain>,
    c: Cell,
    excluded: Set<Cell>,
    n: nat,
    ws: Seq<Seq<Direction>>,
) -> bool {
    &&& ws.len() <= n
    &&& forall|i: int|
        0 <= i < ws.len() ==> first_walk(tiles, Set::empty(), c, #[trigger] ws[i])
            && !excluded.contains(grid::walk_end(c, ws[i]))
    &&& forall|i: int, j: int|
        0 <= i < j < ws.len() ==> grid::walk_rank(#[trigger] ws[i]) < grid::walk_rank(
            #[trigger] ws[j],
        )
    &&& forall|w: Seq<Direction>| #[trigger]
        first_walk(tiles, Set::empty(), c, w) && !excluded.contains(grid::walk_end(c, w)) && (
        ws.len() < n || ws.len() > 0 && grid::walk_rank(w) <= grid::walk_rank(ws.last()))
            ==> ws.contains(w)
}

/// The position of a cell with 32-bit coordinates.
pub open spec fn pos_of(c: Cell) -> GridPos {
    GridPos { x: c.0 as i32, y: c.1 as i32 }
}

pub proof fn lemma_push_open(
    tiles: Seq<Terrain>,
    blocked: Set<Cell>,
    c: Cell,
    w: Seq<Direction>,
    d: Direction,
)
    ensures
        open_walk(tiles, blocked, c, w.push(d)) == (open_walk(tiles, blocked, c, w) && enterable(
            tiles,
            blocked,
            grid::neighbor(grid::walk_end(c, w), d),
        )),
{
    assert(w.push(d).drop_last() =~= w);
}

/// The set of the cells of the map is finite and has one element for each tile.
pub proof fn lemma_grid_cells()
    ensures
        Set::new(|c: Cell| grid::in_grid(c)).finite(),
        Set::new(|c: Cell| grid::in_grid(c)).len() == world::tile_count(),
{
    let cells = Set::new(|c: Cell| grid::in_grid(c));
    let places = set_int_range(0, world::tile_count());
    lemma_int_range(0, world::tile_count());
    assert forall|i: int| places.contains(i) implies cells.contains(#[trigger] world::cell_at(i)) by {}
    assert forall|c: Cell| #[trigger] cells.contains(c) implies exists|i: int|
        places.contains(i) && c == #[trigger] world::cell_at(i) by {
        assert(world::cell_at(world::tile_index(c)) == c);
        assert(places.contains(world::tile_index(c)));
    }
    let f = |i: int| world::cell_at(i);
    assert(places.map(f) =~= cells) by {
        assert forall|c: Cell| #[trigger] cells.contains(c) implies places.map(f).contains(c) by {
            let i = choose|i: int| places.contains(i) && c == #[trigger] world::cell_at(i);
            assert(f(i) == c);
        }
    }
    assert forall|i: int, j: int| places.contains(i) && places.contains(j) && #[trigger] f(i)
        == #[trigger] f(j) implies i == j by {
        assert(i == world::tile_index(world::cell_at(i)));
        assert(j == world::tile_index(world::cell_at(j)));
    }
    lemma_map_size(places, cells, f);
}

/// Distinct cells, each on the map but for one, are no more than the tiles and that one.
pub proof fn lemma_distinct_cells_bound(s: Seq<Cell>, start: Cell)
    requires
        s.no_duplicates(),
        forall|i: int| 0 <= i < s.len() ==> grid::in_grid(#[trigger] s[i]) || s[i] == start,
    ensures
        s.len() <= world::tile_count() + 1,
{
    lemma_grid_cells();
    let cells = Set::new(|c: Cell| grid::in_grid(c)).insert(start);
    s.unique_seq_to_set();
    assert(s.to_set().subset_of(cells));
    lemma_len_subset(s.to_set(), cells);
}

/// True if a walk over passable cells leads from `c`, itself passable, to `d`.
pub open spec fn reachable(tiles: Seq<Terrain>, c: Cell, d: Cell) -> bool {
    world::passable_at(tiles, c) && exists|w: Seq<Direction>| #[trigger]
        open_walk(tiles, Set::empty(), c, w) && grid::walk_end(c, w) == d
}

/// A passable cell reaches itself.
pub proof fn lemma_reach_self(tiles: Seq<Terrain>, c: Cell)
    requires
        world::passable_at(tiles, c),
    ensures
        reachable(tiles, c, c),
{
    let w = Seq::<Direction>::empty();
    assert(open_walk(tiles, Set::empty(), c, w) && grid::walk_end(c, w) == c);
}

/// Reaching goes on over one step onto a passable cell.
pub proof fn lemma_reach_step(tiles: Seq<Terrain>, c: Cell, d: Cell, e: Direction)
    requires
        reachable(tiles, c, d),
        world::passable_at(tiles, grid::neighbor(d, e)),
    ensures
        reachable(tiles, c, grid::neighbor(d, e)),
{
    let w = choose|w: Seq<Direction>| #[trigger]
        open_walk(tiles, Set::empty(), c, w) && grid::walk_end(c, w) == d;
    grid::lemma_push(c, w, e);
    lemma_push_open(tiles, Set::empty(), c, w, e);
    assert(open_walk(tiles, Set::empty(), c, w.push(e)));
}

/// Only passable cells are reached.
pub proof fn lemma_reach_passable(tiles: Seq<Terrain>, c: Cell, d: Cell)
    requires
        reachable(tiles, c, d),
    ensures
        world::passable_at(tiles, d),
{
}

proof fn lemma_open_walk_monotone(
    before: Seq<Terrain>,
    after: Seq<Terrain>,
    c: Cell,
    w: Seq<Direction>,
)
    requires
        forall|d: Cell| #[trigger] world::passable_at(before, d) ==> world::passable_at(after, d),
        open_walk(before, Set::empty(), c, w),
    ensures
        open_walk(after, Set::empty(), c, w),
    decreases w.len(),
{
    if w.len() > 0 {
        lemma_open_walk_monotone(before, after, c, w.drop_last());
        assert(world::passable_at(before, grid::walk_end(c, w)));
    }
}

/// More passable cells, more reached.
pub proof fn lemma_reach_monotone(before: Seq<Terrain>, after: Seq<Terrain>, c: Cell, d: Cell)
    requires
        forall|e: Cell| #[trigger] world::passable_at(before, e) ==> world::passable_at(after, e),
        reachable(before, c, d),
    ensures
        reachable(after, c, d),
{
    let w = choose|w: Seq<Direction>| #[trigger]
        open_walk(before, Set::empty(), c, w) && grid::walk_end(c, w) == d;
    lemma_open_walk_monotone(before, after, c, w);
}

/// A set of cells that holds `c`, if passable, and every passable neighbour of its cells holds
/// all that `c` reaches.
pub proof fn lemma_reach_closed(tiles: Seq<Terrain>, c: Cell, marked: Set<Cell>, w: Seq<Direction>)
    requires
        world::passable_at(tiles, c),
        marked.contains(c),
        forall|d: Cell, e: Direction|
            marked.contains(d) && world::passable_at(tiles, #[trigger] grid::neighbor(d, e))
                ==> marked.contains(grid::neighbor(d, e)),
        open_walk(tiles, Set::empty(), c, w),
    ensures
        marked.contains(grid::walk_end(c, w)),
    decreases w.len(),
{
    if w.len() > 0 {
        lemma_reach_closed(tiles, c, marked, w.drop_last());
    }
}

/// The cells of an open walk, but for the first, are on the map, neither water nor wall, and not
/// blocked; and a walk of such cells is open.
pub proof fn law_open_walks_stay_on_free_ground(
    tiles: Seq<Terrain>,
    blocked: Set<Cell>,
    c: Cell,
    w: Seq<Direction>,
)
    ensures
        open_walk(tiles, blocked, c, w) <==> forall|n: int|
            0 < n <= w.len() ==> {
                let d = #[trigger] grid::walk_end(c, w.take(n));
                &&& 0 <= d.0 < 20
                &&& 0 <= d.1 < 15
                &&& tiles[d.1 * 20 + d.0] != Terrain::Water
                &&& tiles[d.1 * 20 + d.0] != Terrain::Wall
                &&& !blocked.contains(d)
            },
    decreases w.len(),
{
    if w.len() > 0 {
        let v = w.drop_last();
        law_open_walks_stay_on_free_ground(tiles, blocked, c, v);
        assert(w.take(w.len() as int) =~= w);
        assert forall|n: int| 0 < n <= v.len() implies w.take(n) == v.take(n) by {
            assert(w.take(n) =~= v.take(n));
        }
        if open_walk(tiles, blocked, c, w) {
            assert forall|n: int| 0 < n <= w.len() implies {
                let d = #[trigger] grid::walk_end(c, w.take(n));
                &&& 0 <= d.0 < 20
                &&& 0 <= d.1 < 15
                &&& tiles[d.1 * 20 + d.0] != Terrain::Water
                &&& tiles[d.1 * 20 + d.0] != Terrain::Wall
                &&& !blocked.contains(d)
            } by {
                if n < w.len() {
                    assert(w.take(n) == v.take(n));
                    assert(enterable(tiles, blocked, grid::walk_end(c, v.take(n)))) by {
                        let d = grid::walk_end(c, v.take(n));
                    }
                }
            }
        }
        if forall|n: int|
            0 < n <= w.len() ==> {
                let d = #[trigger] grid::walk_end(c, w.take(n));
                &&& 0 <= d.0 < 20
                &&& 0 <= d.1 < 15
                &&& tiles[d.1 * 20 + d.0] != Terrain::Water
                &&& tiles[d.1 * 20 + d.0] != Terrain::Wall
                &&& !blocked.contains(d)
            } {
            assert forall|n: int| 0 < n <= v.len() implies {
                let d = #[trigger] grid::walk_end(c, v.take(n));
                &&& 0 <= d.0 < 20
                &&& 0 <= d.1 < 15
                &&& tiles[d.1 * 20 + d.0] != Terrain::Water
                &&& tiles[d.1 * 20 + d.0] != Terrain::Wall
                &&& !blocked.contains(d)
            } by {
                assert(w.take(n) == v.take(n));
                let d = grid::walk_end(c, w.take(n));
            }
            let d = grid::walk_end(c, w.take(w.len() as int));
        }
    }
}

/// A cell reaches another if and only if both are passable and they are linked: every set of cells
/// that holds the one, and with each of its cells all passable neighbours, holds the other.
pub proof fn law_reaching_is_being_linked(tiles: Seq<Terrain>, c: Cell, d: Cell)
    requires
        world::passable_at(tiles, c),
    ensures
        reachable(tiles, c, d) <==> forall|s: Set<Cell>| #[trigger]
            s.contains(c) && (forall|a: Cell, e: Direction|
                s.contains(a) && world::passable_at(tiles, #[trigger] grid::neighbor(a, e))
                    ==> s.contains(grid::neighbor(a, e))) ==> s.contains(d),
{
    if reachable(tiles, c, d) {
        let w = choose|w: Seq<Direction>| #[trigger]
            open_walk(tiles, Set::empty(), c, w) && grid::walk_end(c, w) == d;
        assert forall|s: Set<Cell>| #[trigger]
            s.contains(c) && (forall|a: Cell, e: Direction|
                s.contains(a) && world::passable_at(tiles, #[trigger] grid::neighbor(a, e))
                    ==> s.contains(grid::neighbor(a, e))) implies s.contains(d) by {
            lemma_reach_closed(tiles, c, s, w);
        }
    } else {
        let s = Set::new(|a: Cell| reachable(tiles, c, a));
        lemma_reach_self(tiles, c);
        assert(s.contains(c));
        assert forall|a: Cell, e: Direction|
            s.contains(a) && world::passable_at(tiles, #[trigger] grid::neighbor(a, e)) implies s.contains(
        grid::neighbor(a, e)) by {
            lemma_reach_step(tiles, c, a, e);
        }
        assert(!s.contains(d));
    }
}

} // verus!
