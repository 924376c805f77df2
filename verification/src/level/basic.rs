//! Generate a level of only wall and floor tiles.

use crate::level::random::shuffle_seeded;
use crate::level::random::shuffled;
use crate::level::random::usable_seed;
use crate::level::tile::Ground;
use crate::util::floodfill::decides;
use crate::util::floodfill::entering;
use crate::util::floodfill::flood;
use crate::util::floodfill::flood_region;
use crate::util::floodfill::flooded_positions;
use crate::util::floodfill::in_order;
use crate::util::floodfill::lemma_walk_extend;
use crate::util::floodfill::marked_cells;
use crate::util::floodfill::walk;
use crate::util::grid::adjacent;
use crate::util::grid::lemma_cells_finite;
use crate::util::grid::lemma_index_of;
use crate::util::grid::lemma_inner_position_at;
use crate::util::grid::lemma_position_at;
use crate::util::grid::steps_to;
use crate::util::grid::Grid;
use crate::util::grid::GridView;
use crate::util::grid::Pos;
use vstd::prelude::*;
use vstd::set_lib::lemma_len_subset;

verus! {

/// A tile of a cave level.
#[derive(PartialEq, Eq, Debug, Copy, Clone, Structural)]
pub enum Tile {
    Wall,
    Floor,
}

/// Every cell of the outer frame is something other than floor.
pub open spec fn walled<T: Ground>(grid: GridView<T>) -> bool {
    forall|p: Pos| grid.is_border(p) ==> !(#[trigger] grid.cells[p]).is_floor_spec()
}

/// Whether every cell of the outer frame is something other than floor.
pub fn has_wall_frame<T: Ground>(grid: &Grid<T>) -> (framed: bool)
    requires
        grid.wf(),
    ensures
        framed == walled(grid@),
{
    let all: Vec<Pos> = grid.positions();
    let mut i: usize = 0;
    while i < all.len()
        invariant
            i <= all@.len(),
            grid.wf(),
            all@ == grid@.positions(),
            forall|j: int|
                0 <= j < i && grid@.is_border(all@[j]) ==> !(#[trigger] grid@.cells[all@[j]])
                    .is_floor_spec(),
        decreases all@.len() - i,
    {
        let pos: Pos = all[i];
        proof {
            lemma_position_at(grid@, i as int);
        }
        if !grid.is_inner(pos) && grid.get(pos).is_floor() {
            return false;
        }
        i += 1;
    }
    proof {
        assert forall|p: Pos| grid@.is_border(p) implies !(#[trigger] grid@.cells[p])
            .is_floor_spec() by {
            lemma_index_of(grid@, p);
            assert(all@[grid@.index_of(p)] == p);
        }
    }
    true
}

/// Walking the ring around `p`, the step from direction `dir` to the next
/// direction leaves a cell that is not floor and enters a floor cell.
pub open spec fn enters_floor<T: Ground>(grid: GridView<T>, p: Pos, dir: int) -> bool {
    !grid[p.neighbor_spec(dir)].is_floor_spec() && grid[p.neighbor_spec(
        (dir + 1) % 6,
    )].is_floor_spec()
}

/// Number of directions below `upto` at which the ring around `p` enters
/// floor.
pub open spec fn floor_entries<T: Ground>(grid: GridView<T>, p: Pos, upto: int) -> int
    decreases upto,
{
    if upto <= 0 {
        0
    } else {
        floor_entries(grid, p, upto - 1) + if enters_floor(grid, p, upto - 1) {
            1int
        } else {
            0int
        }
    }
}

/// Number of separate arcs of floor cells in the ring around `p`.
///
/// A ring without any change from wall to floor is all wall (no arc) or all
/// floor (one arc).
pub open spec fn floor_groups<T: Ground>(grid: GridView<T>, p: Pos) -> int {
    let entries = floor_entries(grid, p, 6);
    if entries > 0 {
        entries
    } else if grid[p.neighbor_spec(0)].is_floor_spec() {
        1
    } else {
        0
    }
}

/// Counts the separate arcs of floor cells among the neighbors of `pos`.
pub fn count_floor_groups<T: Ground>(pos: Pos, grid: &Grid<T>) -> (count: i32)
    requires
        grid.wf(),
        grid@.is_inner(pos),
    ensures
        count == floor_groups(grid@, pos),
        0 <= count <= 3,
{
    let ring: [Pos; 6] = pos.neighbors();
    let mut group_count: i32 = 0;
    let mut dir: usize = 0;
    while dir < 6
        invariant
            grid.wf(),
            grid@.is_inner(pos),
            dir <= 6,
            forall|d: int| 0 <= d < 6 ==> #[trigger] ring[d] == pos.neighbor_spec(d),
            group_count == floor_entries(grid@, pos, dir as int),
            0 <= group_count <= dir,
        decreases 6 - dir,
    {
        let curr: T = grid.get(ring[dir]);
        let after: usize = (dir + 1) % 6;
        let next: T = grid.get(ring[after]);
        if !curr.is_floor() && next.is_floor() {
            group_count += 1;
        }
        dir += 1;
    }
    proof {
        lemma_floor_groups_bound(grid@, pos);
    }
    if group_count > 0 {
        group_count
    } else if grid.get(ring[0]).is_floor() {
        1
    } else {
        0
    }
}

/// A ring of six cells holds at most three separate arcs of floor.
pub proof fn lemma_floor_groups_bound<T: Ground>(grid: GridView<T>, p: Pos)
    ensures
        0 <= floor_entries(grid, p, 6) <= 3,
        0 <= floor_groups(grid, p) <= 3,
{
    reveal_with_fuel(floor_entries, 7);
}

/// `p` is a floor cell whose neighboring floor forms a single arc.
pub open spec fn is_cave_at(grid: GridView<Tile>, p: Pos) -> bool {
    grid.contains(p) && grid[p] == Tile::Floor && floor_groups(grid, p) == 1
}

/// `p` is a cave cell none of whose neighbors is a cave cell.
pub open spec fn is_dead_end_at(grid: GridView<Tile>, p: Pos) -> bool {
    is_cave_at(grid, p) && forall|dir: int|
        0 <= dir < 6 ==> !is_cave_at(grid, #[trigger] p.neighbor_spec(dir))
}

/// Whether `pos` is a floor cell touching exactly one arc of floor.
pub fn is_cave(pos: Pos, grid: &Grid<Tile>) -> (cave: bool)
    requires
        grid.wf(),
        walled(grid@),
        grid@.contains(pos),
    ensures
        cave == is_cave_at(grid@, pos),
{
    grid.get(pos) == Tile::Floor && count_floor_groups(pos, grid) == 1
}

/// Whether `pos` is a cave cell without any cave cell next to it.
pub fn is_dead_end(pos: Pos, grid: &Grid<Tile>) -> (dead_end: bool)
    requires
        grid.wf(),
        walled(grid@),
        grid@.contains(pos),
    ensures
        dead_end == is_dead_end_at(grid@, pos),
{
    if !is_cave(pos, grid) {
        return false;
    }
    let ring: [Pos; 6] = pos.neighbors();
    let mut dir: usize = 0;
    while dir < 6
        invariant
            grid.wf(),
            walled(grid@),
            grid@.is_inner(pos),
            dir <= 6,
            forall|d: int| 0 <= d < 6 ==> #[trigger] ring[d] == pos.neighbor_spec(d),
            forall|d: int| 0 <= d < dir ==> !is_cave_at(grid@, #[trigger] pos.neighbor_spec(d)),
        decreases 6 - dir,
    {
        if is_cave(ring[dir], grid) {
            return false;
        }
        dir += 1;
    }
    true
}

/// The floor cells of a grid.
pub open spec fn floor_cells(grid: GridView<Tile>) -> Set<Pos> {
    Set::new(|p: Pos| grid.contains(p) && grid[p] == Tile::Floor)
}

/// The neighbors of `p`, the last of the ring first.
pub open spec fn ring_backwards(p: Pos) -> Seq<Pos> {
    Seq::new(6, |i: int| p.neighbor_spec(5 - i))
}

/// Turning a floor cell into wall leaves one floor cell less.
pub proof fn lemma_wall_one(grid: GridView<Tile>, p: Pos)
    requires
        grid.wf(),
        grid.contains(p),
        grid[p] == Tile::Floor,
    ensures
        floor_cells(grid).finite(),
        floor_cells(grid.set(p, Tile::Wall)).len() + 1 == floor_cells(grid).len(),
{
    lemma_cells_finite(grid);
    lemma_len_subset(floor_cells(grid), grid.cells.dom());
    assert(floor_cells(grid.set(p, Tile::Wall)) =~= floor_cells(grid).remove(p));
}

/// The grid after the dead ends reachable from a stack of pending cells have
/// been filled.
///
/// The cell on top of the stack (its last element) is looked at first. A dead
/// end becomes wall, and its neighbors are put on the stack so that they are
/// looked at next, in ring order; any other cell is dropped.
pub open spec fn fill_pending(grid: GridView<Tile>, pending: Seq<Pos>) -> GridView<Tile>
    decreases floor_cells(grid).len(), pending.len(),
    when grid.wf()
    via fill_pending_decreases
{
    if pending.len() == 0 {
        grid
    } else if is_dead_end_at(grid, pending.last()) {
        fill_pending(
            grid.set(pending.last(), Tile::Wall),
            pending.drop_last() + ring_backwards(pending.last()),
        )
    } else {
        fill_pending(grid, pending.drop_last())
    }
}

#[via_fn]
proof fn fill_pending_decreases(grid: GridView<Tile>, pending: Seq<Pos>) {
    if pending.len() > 0 && is_dead_end_at(grid, pending.last()) {
        lemma_wall_one(grid, pending.last());
    }
}

/// The grid after `fill_dead_end` at `p`.
pub open spec fn filled_from(grid: GridView<Tile>, p: Pos) -> GridView<Tile> {
    fill_pending(grid, seq![p])
}

/// Fills the dead end at `pos`, if there is one, and then the dead ends that
/// this uncovers among its neighbors, and so on along the corridor.
pub fn fill_dead_end(pos: Pos, grid: &mut Grid<Tile>)
    requires
        old(grid).wf(),
        walled(old(grid)@),
        old(grid)@.contains(pos),
    ensures
        final(grid).wf(),
        walled(final(grid)@),
        final(grid)@ == filled_from(old(grid)@, pos),
        final(grid)@.width == old(grid)@.width,
        final(grid)@.height == old(grid)@.height,
        forall|p: Pos|
            old(grid)@.contains(p) && #[trigger] final(grid)@.cells[p] == Tile::Floor ==> old(
                grid,
            )@[p] == Tile::Floor,
        !is_dead_end_at(final(grid)@, pos),
{
    let mut pending: Vec<Pos> = Vec::new();
    pending.push(pos);
    assert(pending@ =~= seq![pos]);
    while pending.len() > 0
        invariant
            grid.wf(),
            walled(grid@),
            grid@.width == old(grid)@.width,
            grid@.height == old(grid)@.height,
            forall|i: int| 0 <= i < pending@.len() ==> grid@.contains(#[trigger] pending@[i]),
            fill_pending(grid@, pending@) == filled_from(old(grid)@, pos),
            forall|p: Pos|
                old(grid)@.contains(p) && #[trigger] grid@.cells[p] == Tile::Floor ==> old(grid)@[p]
                    == Tile::Floor,
            pending@ == seq![pos] || grid@[pos] == Tile::Wall || (pending@.len() == 0
                && !is_dead_end_at(grid@, pos)),
        decreases floor_cells(grid@).len(), pending@.len(),
    {
        let ghost before = grid@;
        let ghost stack = pending@;
        let current: Pos = pending.pop().unwrap();
        assert(stack.drop_last() == pending@);
        assert(stack.last() == current);
        if is_dead_end(current, grid) {
            grid.set(current, Tile::Wall);
            let ring: [Pos; 6] = current.neighbors();
            pending.push(ring[5]);
            pending.push(ring[4]);
            pending.push(ring[3]);
            pending.push(ring[2]);
            pending.push(ring[1]);
            pending.push(ring[0]);
            proof {
                lemma_wall_one(before, current);
                assert(pending@ =~= stack.drop_last() + ring_backwards(current));
            }
        }
    }
}

/// The grid after carving at each of the positions in turn: a cell becomes
/// floor unless, at its turn, it touches exactly one arc of floor.
pub open spec fn carved(grid: GridView<Tile>, positions: Seq<Pos>) -> GridView<Tile>
    decreases positions.len(),
{
    if positions.len() == 0 {
        grid
    } else {
        let before = carved(grid, positions.drop_last());
        if floor_groups(before, positions.last()) != 1 {
            before.set(positions.last(), Tile::Floor)
        } else {
            before
        }
    }
}

/// Carves caves into the grid, visiting the given cells in order.
pub fn carve_caves(positions: &[Pos], grid: &mut Grid<Tile>)
    requires
        old(grid).wf(),
        walled(old(grid)@),
        forall|i: int| 0 <= i < positions@.len() ==> old(grid)@.is_inner(#[trigger] positions@[i]),
    ensures
        final(grid).wf(),
        walled(final(grid)@),
        final(grid)@ == carved(old(grid)@, positions@),
        final(grid)@.width == old(grid)@.width,
        final(grid)@.height == old(grid)@.height,
        forall|p: Pos|
            old(grid)@.contains(p) && #[trigger] final(grid)@.cells[p] != old(grid)@[p]
                ==> final(grid)@[p] == Tile::Floor && positions@.contains(p),
{
    let mut i: usize = 0;
    assert(positions@.take(0) =~= Seq::<Pos>::empty());
    while i < positions.len()
        invariant
            i <= positions@.len(),
            grid.wf(),
            walled(grid@),
            grid@.width == old(grid)@.width,
            grid@.height == old(grid)@.height,
            forall|j: int|
                0 <= j < positions@.len() ==> old(grid)@.is_inner(#[trigger] positions@[j]),
            grid@ == carved(old(grid)@, positions@.take(i as int)),
            forall|p: Pos|
                old(grid)@.contains(p) && #[trigger] grid@.cells[p] != old(grid)@[p] ==> grid@[p]
                    == Tile::Floor && positions@.contains(p),
        decreases positions@.len() - i,
    {
        let pos: Pos = positions[i];
        proof {
            let visited = positions@.take(i + 1);
            assert(visited.drop_last() =~= positions@.take(i as int));
            assert(visited.last() == pos);
        }
        if count_floor_groups(pos, grid) != 1 {
            grid.set(pos, Tile::Floor);
        }
        i += 1;
    }
    assert(positions@.take(i as int) =~= positions@);
}

/// The wall cells of a grid.
pub open spec fn wall_cells(grid: GridView<Tile>) -> Set<Pos> {
    Set::new(|p: Pos| grid.contains(p) && grid[p] == Tile::Wall)
}

/// The grid with every cell of `region` set to `tile`.
pub open spec fn painted<T>(grid: GridView<T>, region: Set<Pos>, tile: T) -> GridView<T> {
    GridView {
        width: grid.width,
        height: grid.height,
        cells: Map::new(
            |p: Pos| grid.contains(p),
            |p: Pos|
                if region.contains(p) {
                    tile
                } else {
                    grid[p]
                },
        ),
    }
}

/// The grid after the walls that a flood from `p` reaches have been looked
/// at: five of them or fewer become floor.
pub open spec fn without_walls_near(grid: GridView<Tile>, p: Pos) -> GridView<Tile> {
    let region = flood_region(wall_cells(grid), p);
    if region.len() <= 5 {
        painted(grid, region, Tile::Floor)
    } else {
        grid
    }
}

/// The grid after the walls near each of the positions have been looked at
/// in turn.
pub open spec fn without_isolated_walls(grid: GridView<Tile>, positions: Seq<Pos>) -> GridView<
    Tile,
>
    decreases positions.len(),
{
    if positions.len() == 0 {
        grid
    } else {
        without_walls_near(
            without_isolated_walls(grid, positions.drop_last()),
            positions.last(),
        )
    }
}

/// What a flood reaches is open.
pub proof fn lemma_region_is_open(open: Set<Pos>, origin: Pos, p: Pos)
    requires
        flood_region(open, origin).contains(p),
    ensures
        open.contains(p),
{
    let len = choose|len: nat| len > 0 && #[trigger] walk(entering(open), origin, p, len);
    assert(walk(entering(open), origin, p, len));
}

/// A flood that reaches a cell reaches its open neighbors too.
pub proof fn lemma_region_step(open: Set<Pos>, origin: Pos, a: Pos, b: Pos)
    requires
        flood_region(open, origin).contains(a),
        adjacent(a, b),
        open.contains(b),
    ensures
        flood_region(open, origin).contains(b),
{
    let links = entering(open);
    let len = choose|len: nat| len > 0 && #[trigger] walk(links, origin, a, len);
    assert(links.contains((a, b)));
    lemma_walk_extend(links, origin, a, b, len);
}

proof fn lemma_along_row(grid: GridView<Tile>, origin: Pos, y: int, from: int, to: int)
    requires
        grid.wf(),
        walled(grid),
        0 <= from < grid.width,
        0 <= to < grid.width,
        y == 0 || y == grid.height - 1,
        grid.height >= 1,
        flood_region(wall_cells(grid), origin).contains(Pos { x: from as i32, y: y as i32 }),
    ensures
        flood_region(wall_cells(grid), origin).contains(Pos { x: to as i32, y: y as i32 }),
    decreases
            if to >= from {
                to - from
            } else {
                from - to
            },
{
    if from != to {
        let next = if to > from {
            from + 1
        } else {
            from - 1
        };
        let a = Pos { x: from as i32, y: y as i32 };
        let b = Pos { x: next as i32, y: y as i32 };
        assert(steps_to(
            a,
            if to > from {
                0
            } else {
                3
            },
            b,
        ));
        assert(grid.is_border(b));
        assert(grid.cells[b] == Tile::Wall);
        lemma_region_step(wall_cells(grid), origin, a, b);
        lemma_along_row(grid, origin, y, next, to);
    }
}

proof fn lemma_along_column(grid: GridView<Tile>, origin: Pos, x: int, from: int, to: int)
    requires
        grid.wf(),
        walled(grid),
        0 <= from < grid.height,
        0 <= to < grid.height,
        x == 0 || x == grid.width - 1,
        grid.width >= 1,
        flood_region(wall_cells(grid), origin).contains(Pos { x: x as i32, y: from as i32 }),
    ensures
        flood_region(wall_cells(grid), origin).contains(Pos { x: x as i32, y: to as i32 }),
    decreases
            if to >= from {
                to - from
            } else {
                from - to
            },
{
    if from != to {
        let next = if to > from {
            from + 1
        } else {
            from - 1
        };
        let a = Pos { x: x as i32, y: from as i32 };
        let b = Pos { x: x as i32, y: next as i32 };
        assert(steps_to(
            a,
            if to > from {
                1
            } else {
                4
            },
            b,
        ));
        assert(grid.is_border(b));
        assert(grid.cells[b] == Tile::Wall);
        lemma_region_step(wall_cells(grid), origin, a, b);
        lemma_along_column(grid, origin, x, next, to);
    }
}

/// In a grid whose frame is all wall, a flood over walls that reaches one
/// cell of the frame reaches all of it: more than five cells.
pub proof fn lemma_frame_is_large(grid: GridView<Tile>, origin: Pos, b: Pos)
    requires
        grid.wf(),
        walled(grid),
        grid.width >= 3,
        grid.height >= 3,
        grid.is_border(b),
        flood_region(wall_cells(grid), origin).contains(b),
    ensures
        flood_region(wall_cells(grid), origin).finite(),
        flood_region(wall_cells(grid), origin).len() > 5,
{
    let region = flood_region(wall_cells(grid), origin);
    let right = grid.width - 1;
    let bottom = grid.height - 1;
    assert(b == Pos { x: b.x, y: b.y });
    if b.y == 0 {
        lemma_along_row(grid, origin, 0, b.x as int, 0);
    } else if b.y == bottom {
        lemma_along_row(grid, origin, bottom, b.x as int, 0);
        lemma_along_column(grid, origin, 0, bottom, 0);
    } else if b.x == 0 {
        lemma_along_column(grid, origin, 0, b.y as int, 0);
    } else {
        lemma_along_column(grid, origin, right, b.y as int, 0);
        lemma_along_row(grid, origin, 0, right, 0);
    }
    lemma_along_row(grid, origin, 0, 0, 1);
    lemma_along_row(grid, origin, 0, 0, 2);
    lemma_along_column(grid, origin, 0, 0, 1);
    lemma_along_column(grid, origin, 0, 0, 2);
    lemma_along_row(grid, origin, 0, 0, right);
    lemma_along_column(grid, origin, right, 0, 1);
    let six = set![
        Pos { x: 0, y: 0 },
        Pos { x: 1, y: 0 },
        Pos { x: 2, y: 0 },
        Pos { x: 0, y: 1 },
        Pos { x: 0, y: 2 },
        Pos { x: right as i32, y: 1 },
    ];
    assert forall|p: Pos| region.contains(p) implies grid.cells.dom().contains(p) by {
        lemma_region_is_open(wall_cells(grid), origin, p);
    }
    lemma_cells_finite(grid);
    lemma_len_subset(region, grid.cells.dom());
    assert(six.subset_of(region));
    lemma_len_subset(six, region);
    assert(six.len() == 6);
}

/// Sets each of the given cells to `tile`.
fn paint<T: Copy>(grid: &mut Grid<T>, cells: &Vec<Pos>, tile: T)
    requires
        old(grid).wf(),
        forall|i: int| 0 <= i < cells@.len() ==> old(grid)@.contains(#[trigger] cells@[i]),
    ensures
        final(grid).wf(),
        final(grid)@ == painted(old(grid)@, cells@.to_set(), tile),
{
    let mut i: usize = 0;
    while i < cells.len()
        invariant
            i <= cells@.len(),
            grid.wf(),
            grid@.width == old(grid)@.width,
            grid@.height == old(grid)@.height,
            forall|j: int| 0 <= j < cells@.len() ==> old(grid)@.contains(#[trigger] cells@[j]),
            forall|p: Pos|
                old(grid)@.contains(p) ==> #[trigger] grid@.cells[p] == if cells@.take(
                    i as int,
                ).contains(p) {
                    tile
                } else {
                    old(grid)@[p]
                },
        decreases cells@.len() - i,
    {
        let ghost done = cells@.take(i as int);
        let p: Pos = cells[i];
        grid.set(p, tile);
        proof {
            let next = cells@.take(i + 1);
            assert(next[i as int] == p);
            assert forall|q: Pos| next.contains(q) <==> (done.contains(q) || q == p) by {
                if done.contains(q) {
                    let j = choose|j: int| 0 <= j < done.len() && done[j] == q;
                    assert(next[j] == q);
                }
                if next.contains(q) {
                    let j = choose|j: int| 0 <= j < next.len() && next[j] == q;
                    if j < i {
                        assert(done[j] == q);
                    }
                }
            }
        }
        i += 1;
    }
    proof {
        assert(cells@.take(i as int) =~= cells@);
        assert(grid@.cells =~= painted(old(grid)@, cells@.to_set(), tile).cells);
    }
}

/// Floods the walls around `pos`.
fn flood_walls(pos: Pos, grid: &Grid<Tile>) -> (flooded: Grid<bool>)
    requires
        grid.wf(),
    ensures
        flooded.wf(),
        flooded@.width == grid@.width,
        flooded@.height == grid@.height,
        marked_cells(flooded@) == flood_region(wall_cells(grid@), pos),
{
    let is_wall = |p: Pos| -> (wall: bool)
        requires
            grid.wf(),
        ensures
            wall == (grid@.contains(p) && grid@[p] == Tile::Wall),
        { grid.contains(p) && grid.get(p) == Tile::Wall };
    let flooded: Grid<bool> = flood(pos, grid, &is_wall);
    proof {
        assert(decides(grid@, &is_wall, wall_cells(grid@)));
    }
    flooded
}

/// Remove groups of 5 walls or less.
pub fn remove_isolated_walls(grid: &mut Grid<Tile>)
    requires
        old(grid).wf(),
        walled(old(grid)@),
        old(grid)@.width >= 3,
        old(grid)@.height >= 3,
    ensures
        final(grid).wf(),
        walled(final(grid)@),
        final(grid)@ == without_isolated_walls(old(grid)@, old(grid)@.positions()),
        final(grid)@.width == old(grid)@.width,
        final(grid)@.height == old(grid)@.height,
        forall|p: Pos|
            old(grid)@.contains(p) && #[trigger] final(grid)@.cells[p] == Tile::Wall ==> old(
                grid,
            )@[p] == Tile::Wall,
{
    let all: Vec<Pos> = grid.positions();
    let mut i: usize = 0;
    assert(all@.take(0) =~= Seq::<Pos>::empty());
    while i < all.len()
        invariant
            i <= all@.len(),
            all@ == old(grid)@.positions(),
            grid.wf(),
            walled(grid@),
            grid@.width == old(grid)@.width,
            grid@.height == old(grid)@.height,
            grid@.width >= 3,
            grid@.height >= 3,
            grid@ == without_isolated_walls(old(grid)@, all@.take(i as int)),
            forall|p: Pos|
                old(grid)@.contains(p) && #[trigger] grid@.cells[p] == Tile::Wall ==> old(grid)@[p]
                    == Tile::Wall,
        decreases all@.len() - i,
    {
        let pos: Pos = all[i];
        let ghost before = grid@;
        let ghost region = flood_region(wall_cells(before), pos);
        proof {
            assert(all@.take(i + 1).drop_last() =~= all@.take(i as int));
            assert(all@.take(i + 1).last() == pos);
        }
        let flooded: Grid<bool> = flood_walls(pos, grid);
        let wall_positions: Vec<Pos> = flooded_positions(&flooded);
        if wall_positions.len() <= 5 {
            paint(grid, &wall_positions, Tile::Floor);
            proof {
                assert(wall_positions@.to_set() =~= region);
                assert forall|p: Pos| grid@.is_border(p) implies !(#[trigger] grid@.cells[p])
                    .is_floor_spec() by {
                    if region.contains(p) {
                        lemma_frame_is_large(before, pos, p);
                    }
                }
            }
        }
        i += 1;
    }
    assert(all@.take(i as int) =~= all@);
}

/// The cave cells that no accepted cave holds yet.
pub open spec fn caves_left(grid: GridView<Tile>, visited: Set<Pos>) -> Set<Pos> {
    Set::new(|p: Pos| grid.contains(p) && !visited.contains(p) && is_cave_at(grid, p))
}

/// The grid after `fill_dead_end` at each of the cells in turn.
pub open spec fn fill_each(grid: GridView<Tile>, cells: Seq<Pos>) -> GridView<Tile>
    decreases cells.len(),
{
    if cells.len() == 0 {
        grid
    } else {
        filled_from(fill_each(grid, cells.drop_last()), cells.last())
    }
}

/// One step of the removal of small caves, at the cell `p`: the grid and the
/// set of cells of accepted caves after it.
///
/// Dead ends at `p` are filled first. Then the cave cells not yet accepted
/// are flooded from `p`. More than three of them are accepted as a cave.
/// Three or two are erased: `p` becomes wall and the dead ends at each of
/// them, in row-major order, are filled.
pub open spec fn swept_at(grid: GridView<Tile>, visited: Set<Pos>, p: Pos) -> (
    GridView<Tile>,
    Set<Pos>,
) {
    let trimmed = filled_from(grid, p);
    let region = flood_region(caves_left(trimmed, visited), p);
    if region.len() > 3 {
        (trimmed, visited + region)
    } else if region.len() == 3 || region.len() == 2 {
        (fill_each(trimmed.set(p, Tile::Wall), in_order(trimmed, region)), visited)
    } else {
        (trimmed, visited)
    }
}

/// The grid and the accepted cells after the step at each of the positions
/// in turn.
pub open spec fn swept(grid: GridView<Tile>, visited: Set<Pos>, positions: Seq<Pos>) -> (
    GridView<Tile>,
    Set<Pos>,
)
    decreases positions.len(),
{
    if positions.len() == 0 {
        (grid, visited)
    } else {
        let before = swept(grid, visited, positions.drop_last());
        swept_at(before.0, before.1, positions.last())
    }
}

/// The grid after the removal of small caves.
pub open spec fn without_small_caves(grid: GridView<Tile>) -> GridView<Tile> {
    swept(grid, Set::empty(), grid.positions()).0
}

/// Floods the cave cells around `pos` that no accepted cave holds.
fn flood_caves(pos: Pos, grid: &Grid<Tile>, visited: &Grid<bool>) -> (flooded: Grid<bool>)
    requires
        grid.wf(),
        walled(grid@),
        visited.wf(),
        visited@.width == grid@.width,
        visited@.height == grid@.height,
    ensures
        flooded.wf(),
        flooded@.width == grid@.width,
        flooded@.height == grid@.height,
        marked_cells(flooded@) == flood_region(
            caves_left(grid@, marked_cells(visited@)),
            pos,
        ),
{
    let is_new_cave = |p: Pos| -> (cave: bool)
        requires
            grid.wf(),
            walled(grid@),
            visited.wf(),
            visited@.width == grid@.width,
            visited@.height == grid@.height,
        ensures
            cave == (grid@.contains(p) && !visited@[p] && is_cave_at(grid@, p)),
        { grid.contains(p) && !visited.get(p) && is_cave(p, grid) };
    let flooded: Grid<bool> = flood(pos, grid, &is_new_cave);
    proof {
        assert(decides(grid@, &is_new_cave, caves_left(grid@, marked_cells(visited@))));
    }
    flooded
}

/// Fills the dead ends at each of the cells in turn.
fn fill_dead_ends(cells: &Vec<Pos>, grid: &mut Grid<Tile>)
    requires
        old(grid).wf(),
        walled(old(grid)@),
        forall|i: int| 0 <= i < cells@.len() ==> old(grid)@.contains(#[trigger] cells@[i]),
    ensures
        final(grid).wf(),
        walled(final(grid)@),
        final(grid)@ == fill_each(old(grid)@, cells@),
        final(grid)@.width == old(grid)@.width,
        final(grid)@.height == old(grid)@.height,
        forall|p: Pos|
            old(grid)@.contains(p) && #[trigger] final(grid)@.cells[p] == Tile::Floor ==> old(
                grid,
            )@[p] == Tile::Floor,
{
    let mut i: usize = 0;
    assert(cells@.take(0) =~= Seq::<Pos>::empty());
    while i < cells.len()
        invariant
            i <= cells@.len(),
            grid.wf(),
            walled(grid@),
            grid@.width == old(grid)@.width,
            grid@.height == old(grid)@.height,
            forall|j: int| 0 <= j < cells@.len() ==> old(grid)@.contains(#[trigger] cells@[j]),
            grid@ == fill_each(old(grid)@, cells@.take(i as int)),
            forall|p: Pos|
                old(grid)@.contains(p) && #[trigger] grid@.cells[p] == Tile::Floor ==> old(grid)@[p]
                    == Tile::Floor,
        decreases cells@.len() - i,
    {
        proof {
            assert(cells@.take(i + 1).drop_last() =~= cells@.take(i as int));
            assert(cells@.take(i + 1).last() == cells@[i as int]);
        }
        fill_dead_end(cells[i], grid);
        i += 1;
    }
    assert(cells@.take(i as int) =~= cells@);
}

/// Remove caves of less than 4 tiles in size.
pub fn remove_small_caves(grid: &mut Grid<Tile>)
    requires
        old(grid).wf(),
        walled(old(grid)@),
    ensures
        final(grid).wf(),
        walled(final(grid)@),
        final(grid)@ == without_small_caves(old(grid)@),
        final(grid)@.width == old(grid)@.width,
        final(grid)@.height == old(grid)@.height,
        forall|p: Pos|
            old(grid)@.contains(p) && #[trigger] final(grid)@.cells[p] == Tile::Floor ==> old(
                grid,
            )@[p] == Tile::Floor,
{
    let mut visited: Grid<bool> = Grid::new(grid.width(), grid.height(), false);
    let all: Vec<Pos> = grid.positions();
    let mut i: usize = 0;
    proof {
        assert(all@.take(0) =~= Seq::<Pos>::empty());
        assert(marked_cells(visited@) =~= Set::<Pos>::empty());
    }
    while i < all.len()
        invariant
            i <= all@.len(),
            all@ == old(grid)@.positions(),
            old(grid)@.wf(),
            grid.wf(),
            walled(grid@),
            visited.wf(),
            grid@.width == old(grid)@.width,
            grid@.height == old(grid)@.height,
            visited@.width == old(grid)@.width,
            visited@.height == old(grid)@.height,
            grid@ == swept(old(grid)@, Set::empty(), all@.take(i as int)).0,
            marked_cells(visited@) == swept(old(grid)@, Set::empty(), all@.take(i as int)).1,
            forall|p: Pos|
                old(grid)@.contains(p) && #[trigger] grid@.cells[p] == Tile::Floor ==> old(grid)@[p]
                    == Tile::Floor,
        decreases all@.len() - i,
    {
        let pos: Pos = all[i];
        let ghost seen = marked_cells(visited@);
        proof {
            lemma_position_at(old(grid)@, i as int);
            assert(all@.take(i + 1).drop_last() =~= all@.take(i as int));
            assert(all@.take(i + 1).last() == pos);
        }
        fill_dead_end(pos, grid);
        let ghost trimmed = grid@;
        let ghost region = flood_region(caves_left(trimmed, seen), pos);
        let flooded: Grid<bool> = flood_caves(pos, grid, &visited);
        let cells: Vec<Pos> = flooded_positions(&flooded);
        proof {
            assert(flooded@.positions() =~= trimmed.positions());
            assert(cells@ == in_order(trimmed, region));
        }
        if cells.len() > 3 {
            paint(&mut visited, &cells, true);
            proof {
                assert(cells@.to_set() =~= region);
                assert(marked_cells(visited@) =~= seen + region);
            }
        } else if cells.len() == 3 || cells.len() == 2 {
            grid.set(pos, Tile::Wall);
            fill_dead_ends(&cells, grid);
        }
        i += 1;
    }
    assert(all@.take(i as int) =~= all@);
}

/// The cells inside the frame of the grid, in the order that the seed gives
/// them.
pub fn calc_shuffled_positions<T: Copy>(grid: &Grid<T>, seed: [u32; 4]) -> (positions: Vec<Pos>)
    requires
        grid.wf(),
        usable_seed(seed@),
    ensures
        positions@ == shuffled(seed@, grid@.inner_positions(), usize::BITS as nat),
        forall|i: int| 0 <= i < positions@.len() ==> grid@.is_inner(#[trigger] positions@[i]),
{
    let inner: Vec<Pos> = grid.inner_positions();
    let ghost listed = inner@;
    let positions: Vec<Pos> = shuffle_seeded(seed, inner);
    proof {
        positions@.to_multiset_ensures();
        listed.to_multiset_ensures();
        assert forall|i: int| 0 <= i < positions@.len() implies grid@.is_inner(
            #[trigger] positions@[i],
        ) by {
            let p = positions@[i];
            assert(positions@.contains(p));
            assert(positions@.to_multiset().count(p) > 0);
            assert(listed.to_multiset().count(p) > 0);
            assert(listed.contains(p));
            let j = choose|j: int| 0 <= j < listed.len() && listed[j] == p;
            lemma_inner_position_at(grid@, j);
        }
    }
    positions
}

/// The level that a seed gives: an all-wall grid, carved at the cells inside
/// the frame in the order that the seed shuffles them into, then cleaned of
/// isolated walls and of small caves.
pub open spec fn generated(width: nat, height: nat, seed: Seq<u32>) -> GridView<Tile> {
    let blank = GridView::filled(width, height, Tile::Wall);
    let order = shuffled(seed, blank.inner_positions(), usize::BITS as nat);
    let caves = carved(blank, order);
    without_small_caves(without_isolated_walls(caves, caves.positions()))
}

/// Generates a cave level of the given size from a seed.
///
/// The grid needs a frame and at least one cell inside it, and the seed must
/// not be all zero. The frame of the level is all wall, and the same
/// arguments always give the same level.
pub fn generate(width: usize, height: usize, seed: [u32; 4]) -> (grid: Grid<Tile>)
    requires
        3 <= width <= i32::MAX,
        3 <= height <= i32::MAX,
        width * height <= usize::MAX,
        usable_seed(seed@),
    ensures
        grid.wf(),
        grid@ == generated(width as nat, height as nat, seed@),
        grid@.width == width,
        grid@.height == height,
        walled(grid@),
{
    let mut grid: Grid<Tile> = Grid::new(width, height, Tile::Wall);
    let positions: Vec<Pos> = calc_shuffled_positions(&grid, seed);
    carve_caves(positions.as_slice(), &mut grid);
    remove_isolated_walls(&mut grid);
    remove_small_caves(&mut grid);
    grid
}

} // verus!
