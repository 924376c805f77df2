//! Linking a level to the next one through an exit and an entrance at the
//! same position.

use crate::level::basic::count_floor_groups;
use crate::level::basic::floor_groups;
use crate::level::basic::generate;
use crate::level::basic::generated;
use crate::level::basic::calc_shuffled_positions;
use crate::level::basic::Tile;
use crate::level::random::draw_seed;
use crate::level::random::is_usable_seed;
use crate::level::random::shuffled;
use crate::level::random::usable_seed;
use crate::level::tile::Terrain;
use crate::util::grid::lemma_index_of;
use crate::util::grid::lemma_position_at;
use crate::util::grid::Grid;
use crate::util::grid::GridView;
use crate::util::grid::Pos;
use rand::XorShiftRng;
use vstd::prelude::*;

verus! {

/// Number of directions below `upto` in which the neighbor of `p` is wall.
pub open spec fn wall_neighbors(level: GridView<Terrain>, p: Pos, upto: int) -> int
    decreases upto,
{
    if upto <= 0 {
        0
    } else {
        wall_neighbors(level, p, upto - 1) + if level[p.neighbor_spec(upto - 1)] == Terrain::Wall {
            1int
        } else {
            0int
        }
    }
}

/// Counts the neighbors of `pos` that are wall.
pub fn count_wall_neighbors(pos: Pos, level: &Grid<Terrain>) -> (count: usize)
    requires
        level.wf(),
        level@.is_inner(pos),
    ensures
        count == wall_neighbors(level@, pos, 6),
        count <= 6,
{
    let ring: [Pos; 6] = pos.neighbors();
    let mut count: usize = 0;
    let mut dir: usize = 0;
    while dir < 6
        invariant
            level.wf(),
            level@.is_inner(pos),
            dir <= 6,
            forall|d: int| 0 <= d < 6 ==> #[trigger] ring[d] == pos.neighbor_spec(d),
            count == wall_neighbors(level@, pos, dir as int),
            count <= dir,
        decreases 6 - dir,
    {
        if level.get(ring[dir]) == Terrain::Wall {
            count += 1;
        }
        dir += 1;
    }
    count
}

/// `p` can hold an exit: it is wall, touches exactly one arc of floor, and
/// exactly four of its six neighbors are wall.
pub open spec fn is_valid_exit_at(level: GridView<Terrain>, p: Pos) -> bool {
    level[p] == Terrain::Wall && floor_groups(level, p) == 1 && wall_neighbors(level, p, 6) == 4
}

/// Whether `pos` can hold an exit of the level.
pub fn is_valid_exit(pos: Pos, level: &Grid<Terrain>) -> (valid: bool)
    requires
        level.wf(),
        level@.is_inner(pos),
    ensures
        valid == is_valid_exit_at(level@, pos),
{
    level.get(pos) == Terrain::Wall && count_floor_groups(pos, level) == 1 && count_wall_neighbors(
        pos,
        level,
    ) == 4
}

/// `p` can hold an exit in both levels.
pub open spec fn links(level: GridView<Terrain>, next_level: GridView<Terrain>, p: Pos) -> bool {
    is_valid_exit_at(level, p) && is_valid_exit_at(next_level, p)
}

/// Finds the first of the positions that can hold an exit in both levels.
pub fn find_exit(level: &Grid<Terrain>, next_level: &Grid<Terrain>, positions: &Vec<Pos>) -> (found:
    Option<Pos>)
    requires
        level.wf(),
        next_level.wf(),
        forall|i: int|
            0 <= i < positions@.len() ==> level@.is_inner(#[trigger] positions@[i])
                && next_level@.is_inner(positions@[i]),
    ensures
        match found {
            Some(p) => exists|i: int|
                0 <= i < positions@.len() && #[trigger] positions@[i] == p && links(
                    level@,
                    next_level@,
                    p,
                ) && forall|j: int|
                    0 <= j < i ==> !links(level@, next_level@, #[trigger] positions@[j]),
            None => forall|i: int|
                0 <= i < positions@.len() ==> !links(level@, next_level@, #[trigger] positions@[i]),
        },
{
    let mut i: usize = 0;
    while i < positions.len()
        invariant
            i <= positions@.len(),
            level.wf(),
            next_level.wf(),
            forall|j: int|
                0 <= j < positions@.len() ==> level@.is_inner(#[trigger] positions@[j])
                    && next_level@.is_inner(positions@[j]),
            forall|j: int| 0 <= j < i ==> !links(level@, next_level@, #[trigger] positions@[j]),
        decreases positions@.len() - i,
    {
        let pos: Pos = positions[i];
        if is_valid_exit(pos, level) && is_valid_exit(pos, next_level) {
            return Some(pos);
        }
        i += 1;
    }
    None
}

/// The terrain of a freshly generated level.
pub open spec fn terrain_of(tiles: GridView<Tile>) -> GridView<Terrain> {
    GridView {
        width: tiles.width,
        height: tiles.height,
        cells: Map::new(|p: Pos| tiles.contains(p), |p: Pos| Terrain::of_tile(tiles[p])),
    }
}

/// Turns the tiles of a freshly generated level into terrain.
pub fn promote(tiles: &Grid<Tile>) -> (level: Grid<Terrain>)
    requires
        tiles.wf(),
    ensures
        level.wf(),
        level@ == terrain_of(tiles@),
{
    let mut level: Grid<Terrain> = Grid::new(tiles.width(), tiles.height(), Terrain::Wall);
    let all: Vec<Pos> = tiles.positions();
    let mut i: usize = 0;
    while i < all.len()
        invariant
            i <= all@.len(),
            tiles.wf(),
            level.wf(),
            all@ == tiles@.positions(),
            level@.width == tiles@.width,
            level@.height == tiles@.height,
            forall|j: int|
                0 <= j < i ==> level@[#[trigger] all@[j]] == Terrain::of_tile(tiles@[all@[j]]),
        decreases all@.len() - i,
    {
        let pos: Pos = all[i];
        proof {
            lemma_position_at(tiles@, i as int);
        }
        level.set(pos, Terrain::from_tile(tiles.get(pos)));
        i += 1;
    }
    proof {
        assert forall|p: Pos| tiles@.contains(p) implies level@.cells[p] == Terrain::of_tile(
            tiles@[p],
        ) by {
            lemma_index_of(tiles@, p);
            assert(all@[tiles@.index_of(p)] == p);
        }
        assert(level@.cells =~= terrain_of(tiles@).cells);
    }
    level
}

/// What linking does to a level and to the candidate for the next one:
/// the level gets an exit and the candidate an entrance, at the first of the
/// positions that can hold an exit in both; without such a position there is
/// no link.
pub open spec fn linking(
    level: GridView<Terrain>,
    candidate: GridView<Terrain>,
    positions: Seq<Pos>,
    level_after: GridView<Terrain>,
    next: Option<GridView<Terrain>>,
) -> bool {
    match next {
        Some(next_level) => exists|i: int|
            0 <= i < positions.len() && links(level, candidate, #[trigger] positions[i]) && (forall|
                j: int,
            |
                0 <= j < i ==> !links(level, candidate, #[trigger] positions[j]))
                && level_after == level.set(positions[i], Terrain::Exit) && next_level
                == candidate.set(positions[i], Terrain::Entrance),
        None => level_after == level && forall|i: int|
            0 <= i < positions.len() ==> !links(level, candidate, #[trigger] positions[i]),
    }
}

/// Tries to link the level to the level that `seed` generates, with the
/// positions searched in the given order.
pub fn link_levels(level: &mut Grid<Terrain>, positions: &Vec<Pos>, seed: [u32; 4]) -> (next:
    Option<Grid<Terrain>>)
    requires
        old(level).wf(),
        old(level)@.width >= 3,
        old(level)@.height >= 3,
        usable_seed(seed@),
        forall|i: int| 0 <= i < positions@.len() ==> old(level)@.is_inner(#[trigger] positions@[i]),
    ensures
        final(level).wf(),
        next matches Some(next_level) ==> next_level.wf(),
        linking(
            old(level)@,
            terrain_of(generated(old(level)@.width, old(level)@.height, seed@)),
            positions@,
            final(level)@,
            match next {
                Some(next_level) => Some(next_level@),
                None => None,
            },
        ),
{
    let tiles: Grid<Tile> = generate(level.width(), level.height(), seed);
    let mut next_level: Grid<Terrain> = promote(&tiles);
    match find_exit(level, &next_level, positions) {
        Some(pos) => {
            level.set(pos, Terrain::Exit);
            next_level.set(pos, Terrain::Entrance);
            Some(next_level)
        },
        None => None,
    }
}

/// The level and the next one are linked as the two seeds decide: the cells
/// inside the frame are searched in the order that `order_seed` shuffles them
/// into, and the next level is the one that `seed` generates, with its
/// entrance where the level got its exit.
pub open spec fn linked_by(
    before: GridView<Terrain>,
    after: GridView<Terrain>,
    next_level: GridView<Terrain>,
    order_seed: Seq<u32>,
    seed: Seq<u32>,
) -> bool {
    let positions = shuffled(order_seed, before.inner_positions(), usize::BITS as nat);
    &&& usable_seed(order_seed)
    &&& usable_seed(seed)
    &&& forall|i: int| 0 <= i < positions.len() ==> before.is_inner(#[trigger] positions[i])
    &&& linking(
        before,
        terrain_of(generated(before.width, before.height, seed)),
        positions,
        after,
        Some(next_level),
    )
}

/// Generates a following level and links the level to it.
///
/// The cells inside the frame are searched in an order that is drawn from the
/// generator once. Each attempt draws a seed, generates the level of that
/// seed and looks for the first position that can hold an exit in both
/// levels. The first attempt that finds one marks the exit and the entrance
/// and ends the search. The level is left as it was after `attempts`
/// attempts without a link, and when the generator yields the one seed that
/// cannot order the search.
pub fn add_exit(level: &mut Grid<Terrain>, rng: &mut XorShiftRng, attempts: usize) -> (next: Option<
    Grid<Terrain>,
>)
    requires
        old(level).wf(),
        old(level)@.width >= 3,
        old(level)@.height >= 3,
    ensures
        final(level).wf(),
        match next {
            Some(next_level) => next_level.wf() && exists|order_seed: Seq<u32>, seed: Seq<u32>|
                linked_by(old(level)@, final(level)@, next_level@, order_seed, seed),
            None => final(level)@ == old(level)@,
        },
        attempts == 0 ==> next is None,
{
    let order_seed: [u32; 4] = draw_seed(rng);
    if !is_usable_seed(&order_seed) {
        return None;
    }
    let positions: Vec<Pos> = calc_shuffled_positions(level, order_seed);
    let mut tried: usize = 0;
    while tried < attempts
        invariant
            tried <= attempts,
            level.wf(),
            level@ == old(level)@,
            level@.width >= 3,
            level@.height >= 3,
            usable_seed(order_seed@),
            positions@ == shuffled(order_seed@, level@.inner_positions(), usize::BITS as nat),
            forall|i: int| 0 <= i < positions@.len() ==> level@.is_inner(#[trigger] positions@[i]),
        decreases attempts - tried,
    {
        let seed: [u32; 4] = draw_seed(rng);
        if is_usable_seed(&seed) {
            match link_levels(level, &positions, seed) {
                Some(next_level) => {
                    assert(linked_by(old(level)@, level@, next_level@, order_seed@, seed@));
                    return Some(next_level);
                },
                None => {},
            }
        }
        tried += 1;
    }
    None
}

/// The two levels are linked at `p`: `p` lies inside the frame and could hold
/// an exit in the level as it was and in the candidate; the level now has its
/// only exit there, and the next level is the candidate with an entrance
/// there.
pub open spec fn linked_at(
    before: GridView<Terrain>,
    candidate: GridView<Terrain>,
    after: GridView<Terrain>,
    next_level: GridView<Terrain>,
    p: Pos,
) -> bool {
    &&& before.is_inner(p)
    &&& is_valid_exit_at(before, p)
    &&& is_valid_exit_at(candidate, p)
    &&& after == before.set(p, Terrain::Exit)
    &&& next_level == candidate.set(p, Terrain::Entrance)
    &&& next_level[p] == Terrain::Entrance
    &&& forall|q: Pos|
        after.contains(q) ==> (#[trigger] after.cells[q] == Terrain::Exit <==> q == p)
}

/// A level without an exit has exactly one after it has been linked, at the
/// position where the next level has its entrance; that position could hold
/// an exit in both levels as they were before they were marked.
pub proof fn lemma_link_marks_one_exit(
    before: GridView<Terrain>,
    candidate: GridView<Terrain>,
    positions: Seq<Pos>,
    after: GridView<Terrain>,
    next_level: GridView<Terrain>,
)
    requires
        before.wf(),
        forall|i: int| 0 <= i < positions.len() ==> before.is_inner(#[trigger] positions[i]),
        linking(before, candidate, positions, after, Some(next_level)),
        forall|q: Pos| before.contains(q) ==> #[trigger] before.cells[q] != Terrain::Exit,
    ensures
        exists|p: Pos| #[trigger] linked_at(before, candidate, after, next_level, p),
{
    let i = choose|i: int|
        0 <= i < positions.len() && links(before, candidate, #[trigger] positions[i]) && (forall|
            j: int,
        |
            0 <= j < i ==> !links(before, candidate, #[trigger] positions[j])) && after
            == before.set(positions[i], Terrain::Exit) && next_level == candidate.set(
            positions[i],
            Terrain::Entrance,
        );
    assert(linked_at(before, candidate, after, next_level, positions[i]));
}

} // verus!
