//! Connected regions of a grid: the cells that a flood reaches from one
//! origin, and the partition of a whole grid into connected components.

use crate::util::grid::adjacent;
use crate::util::grid::lemma_cells_finite;
use crate::util::grid::lemma_index_of;
use crate::util::grid::lemma_position_at;
use crate::util::grid::steps_to;
use crate::util::grid::Grid;
use crate::util::grid::GridView;
use crate::util::grid::Pos;
use vstd::prelude::*;
use vstd::set_lib::lemma_len_subset;

verus! {

/// A walk of `len` moves leads from `from` to `to`, and each move follows a
/// link.
pub open spec fn walk(links: Set<(Pos, Pos)>, from: Pos, to: Pos, len: nat) -> bool
    decreases len,
{
    if len == 0 {
        from == to
    } else {
        exists|mid: Pos|
            walk(links, from, mid, (len - 1) as nat) && #[trigger] links.contains((mid, to))
    }
}

/// A walk of at least one move leads from `from` to `to`.
pub open spec fn reaches(links: Set<(Pos, Pos)>, from: Pos, to: Pos) -> bool {
    exists|len: nat| len > 0 && #[trigger] walk(links, from, to, len)
}

/// The moves of a flood: from any cell to a neighbor that is open.
pub open spec fn entering(open: Set<Pos>) -> Set<(Pos, Pos)> {
    Set::new(|link: (Pos, Pos)| adjacent(link.0, link.1) && open.contains(link.1))
}

/// The cells that a flood from `origin` reaches: the ends of all walks of one
/// move or more that start at `origin` and enter open cells only. The origin
/// itself belongs to it only where such a walk leads back to it.
pub open spec fn flood_region(open: Set<Pos>, origin: Pos) -> Set<Pos> {
    Set::new(|p: Pos| reaches(entering(open), origin, p))
}

/// The cells of the grid on which the predicate is seen to answer yes.
pub open spec fn accepted_cells<T, F: Fn(Pos) -> bool>(grid: GridView<T>, floodable: &F) -> Set<
    Pos,
> {
    Set::new(|p: Pos| grid.contains(p) && call_ensures(floodable, (p,), true))
}

/// `open` is the set of cells of the grid that the predicate accepts:
/// whatever the predicate answers for a cell of the grid tells whether the
/// cell belongs to `open`.
pub open spec fn decides<T, F: Fn(Pos) -> bool>(
    grid: GridView<T>,
    floodable: &F,
    open: Set<Pos>,
) -> bool {
    &&& forall|p: Pos| open.contains(p) ==> grid.contains(p)
    &&& forall|p: Pos, answer: bool|
        grid.contains(p) && #[trigger] call_ensures(floodable, (p,), answer) ==> answer
            == open.contains(p)
}

/// The predicate can be asked about every cell of the grid.
pub open spec fn askable<T, F: Fn(Pos) -> bool>(grid: GridView<T>, floodable: &F) -> bool {
    forall|p: Pos| grid.contains(p) ==> #[trigger] call_requires(floodable, (p,))
}

/// The cells that a mask marks.
pub open spec fn marked_cells(mask: GridView<bool>) -> Set<Pos> {
    Set::new(|p: Pos| mask.contains(p) && mask[p])
}

/// The cells that a mask leaves unmarked.
pub open spec fn unmarked_cells(mask: GridView<bool>) -> Set<Pos> {
    Set::new(|p: Pos| mask.contains(p) && !mask[p])
}

/// One more move along a link extends a walk.
pub proof fn lemma_walk_extend(links: Set<(Pos, Pos)>, from: Pos, mid: Pos, to: Pos, len: nat)
    requires
        walk(links, from, mid, len),
        links.contains((mid, to)),
    ensures
        walk(links, from, to, len + 1),
{
    let longer = len + 1;
    assert((longer - 1) as nat == len);
}

/// A walk stays a walk when links are added.
pub proof fn lemma_walk_in_more_links(
    links: Set<(Pos, Pos)>,
    more: Set<(Pos, Pos)>,
    from: Pos,
    to: Pos,
    len: nat,
)
    requires
        links.subset_of(more),
        walk(links, from, to, len),
    ensures
        walk(more, from, to, len),
    decreases len,
{
    if len > 0 {
        let mid = choose|mid: Pos|
            walk(links, from, mid, (len - 1) as nat) && #[trigger] links.contains((mid, to));
        lemma_walk_in_more_links(links, more, from, mid, (len - 1) as nat);
        assert(more.contains((mid, to)));
    }
}

/// A set that holds every successor of `from` and of its own members holds
/// the end of every walk from `from`.
pub proof fn lemma_closed_holds_walks(
    links: Set<(Pos, Pos)>,
    from: Pos,
    closed: Set<Pos>,
    to: Pos,
    len: nat,
)
    requires
        forall|a: Pos, b: Pos|
            (a == from || closed.contains(a)) && #[trigger] links.contains((a, b))
                ==> closed.contains(b),
        walk(links, from, to, len),
        len > 0,
    ensures
        closed.contains(to),
    decreases len,
{
    let before = (len - 1) as nat;
    let mid = choose|mid: Pos|
        walk(links, from, mid, (len - 1) as nat) && #[trigger] links.contains((mid, to));
    if before > 0 {
        lemma_closed_holds_walks(links, from, closed, mid, before);
    }
}

/// Marking one more cell shrinks the set of unmarked cells by one.
proof fn lemma_mark_one(before: GridView<bool>, after: GridView<bool>, p: Pos)
    requires
        before.wf(),
        before.contains(p),
        !before[p],
        after == before.set(p, true),
    ensures
        unmarked_cells(before).finite(),
        unmarked_cells(after).len() + 1 == unmarked_cells(before).len(),
{
    lemma_cells_finite(before);
    lemma_len_subset(unmarked_cells(before), before.cells.dom());
    assert(unmarked_cells(after) =~= unmarked_cells(before).remove(p));
}

/// Expands one cell of a flood: every neighbor of `pos` that lies in the grid,
/// is not marked yet and is accepted by the predicate gets marked and queued.
fn flood_helper<F>(pos: Pos, floodable: &F, flooded: &mut Grid<bool>, pending: &mut Vec<Pos>) where
    F: Fn(Pos) -> bool,

    requires
        old(flooded).wf(),
        askable(old(flooded)@, floodable),
    ensures
        final(flooded).wf(),
        final(flooded)@.width == old(flooded)@.width,
        final(flooded)@.height == old(flooded)@.height,
        forall|p: Pos| old(flooded)@.contains(p) && old(flooded)@[p] ==> final(flooded)@[p],
        forall|q: Pos|
            #![trigger final(flooded)@.cells[q]]
            old(flooded)@.contains(q) && final(flooded)@[q] && !old(flooded)@[q] ==> adjacent(
                pos,
                q,
            ) && call_ensures(floodable, (q,), true) && final(pending)@.contains(q),
        forall|q: Pos|
            #![trigger adjacent(pos, q)]
            adjacent(pos, q) && old(flooded)@.contains(q) ==> final(flooded)@[q] || call_ensures(
                floodable,
                (q,),
                false,
            ),
        final(pending)@.len() >= old(pending)@.len(),
        final(pending)@.subrange(0, old(pending)@.len() as int) == old(pending)@,
        forall|i: int|
            old(pending)@.len() <= i < final(pending)@.len() ==> final(flooded)@.contains(
                #[trigger] final(pending)@[i],
            ) && final(flooded)@[final(pending)@[i]],
        unmarked_cells(final(flooded)@).len() + final(pending)@.len() == unmarked_cells(
            old(flooded)@,
        ).len() + old(pending)@.len(),
{
    let mut dir: usize = 0;
    while dir < 6
        invariant
            dir <= 6,
            flooded.wf(),
            flooded@.width == old(flooded)@.width,
            flooded@.height == old(flooded)@.height,
            askable(old(flooded)@, floodable),
            forall|p: Pos| old(flooded)@.contains(p) && old(flooded)@[p] ==> flooded@[p],
            forall|q: Pos|
                #![trigger flooded@.cells[q]]
                old(flooded)@.contains(q) && flooded@[q] && !old(flooded)@[q] ==> adjacent(pos, q)
                    && call_ensures(floodable, (q,), true) && pending@.contains(q),
            forall|q: Pos, d: int|
                #![trigger steps_to(pos, d, q)]
                0 <= d < dir && steps_to(pos, d, q) && old(flooded)@.contains(q) ==> flooded@[q]
                    || call_ensures(floodable, (q,), false),
            pending@.len() >= old(pending)@.len(),
            pending@.subrange(0, old(pending)@.len() as int) == old(pending)@,
            forall|i: int|
                old(pending)@.len() <= i < pending@.len() ==> flooded@.contains(
                    #[trigger] pending@[i],
                ) && flooded@[pending@[i]],
            unmarked_cells(flooded@).len() + pending@.len() == unmarked_cells(old(flooded)@).len()
                + old(pending)@.len(),
        decreases 6 - dir,
    {
        let ghost before = flooded@;
        let ghost queued = pending@;
        match flooded.neighbor_in(pos, dir) {
            Some(next) => {
                if !flooded.get(next) && floodable(next) {
                    flooded.set(next, true);
                    pending.push(next);
                    proof {
                        lemma_mark_one(before, flooded@, next);
                        assert(pending@ == queued.push(next));
                        assert(pending@[queued.len() as int] == next);
                        assert forall|q: Pos| queued.contains(q) implies pending@.contains(q) by {
                            let i = choose|i: int| 0 <= i < queued.len() && queued[i] == q;
                            assert(pending@[i] == q);
                        }
                        assert(pending@.subrange(0, old(pending)@.len() as int) =~= queued.subrange(
                            0,
                            old(pending)@.len() as int,
                        ));
                    }
                }
            },
            None => {},
        }
        dir += 1;
    }
}

/// Finds the cells that a flood from `origin` reaches.
///
/// The flood moves from a cell to each neighbor that lies in the grid and
/// that `floodable` accepts; the predicate is asked about cells of the grid
/// only. Whatever set of cells the predicate stands for, the result marks
/// exactly the `flood_region` of that set.
pub fn flood<F, T: Copy>(origin: Pos, grid: &Grid<T>, floodable: &F) -> (flooded: Grid<bool>) where
    F: Fn(Pos) -> bool,

    requires
        grid.wf(),
        askable(grid@, floodable),
    ensures
        flooded.wf(),
        flooded@.width == grid@.width,
        flooded@.height == grid@.height,
        forall|open: Set<Pos>| #[trigger]
            decides(grid@, floodable, open) ==> marked_cells(flooded@) == flood_region(
                open,
                origin,
            ),
{
    let mut flooded: Grid<bool> = Grid::new(grid.width(), grid.height(), false);
    let mut pending: Vec<Pos> = Vec::new();
    pending.push(origin);
    let ghost seen = accepted_cells(grid@, floodable);
    let ghost links = entering(seen);
    proof {
        lemma_cells_finite(flooded@);
        lemma_len_subset(unmarked_cells(flooded@), flooded@.cells.dom());
        assert(pending@[0] == origin);
    }
    while pending.len() > 0
        invariant
            grid.wf(),
            flooded.wf(),
            flooded@.width == grid@.width,
            flooded@.height == grid@.height,
            askable(grid@, floodable),
            seen == accepted_cells(grid@, floodable),
            links == entering(seen),
            forall|p: Pos|
                #![trigger flooded@.cells[p]]
                flooded@.contains(p) && flooded@[p] ==> reaches(links, origin, p),
            forall|i: int|
                0 <= i < pending@.len() ==> #[trigger] pending@[i] == origin || (flooded@.contains(
                    pending@[i],
                ) && flooded@[pending@[i]]),
            forall|a: Pos, b: Pos|
                #![trigger adjacent(a, b)]
                (a == origin || (flooded@.contains(a) && flooded@[a])) && !pending@.contains(a)
                    && adjacent(a, b) && flooded@.contains(b) ==> flooded@[b] || call_ensures(
                    floodable,
                    (b,),
                    false,
                ),
        decreases unmarked_cells(flooded@).len() + pending@.len(),
    {
        let ghost before = flooded@;
        let ghost queued = pending@;
        let current: Pos = pending.pop().unwrap();
        let ghost rest = pending@;
        assert(askable(flooded@, floodable));
        flood_helper(current, floodable, &mut flooded, &mut pending);
        proof {
            assert forall|i: int| 0 <= i < pending@.len() implies #[trigger] pending@[i] == origin
                || (flooded@.contains(pending@[i]) && flooded@[pending@[i]]) by {
                if i < rest.len() {
                    assert(pending@.subrange(0, rest.len() as int)[i] == rest[i]);
                    assert(rest[i] == queued[i]);
                }
            }
            assert forall|p: Pos|
                #![trigger flooded@.cells[p]]
                flooded@.contains(p) && flooded@[p] implies reaches(links, origin, p) by {
                if !before[p] {
                    assert(links.contains((current, p)));
                    if current == origin {
                        assert(walk(links, origin, origin, 0));
                        lemma_walk_extend(links, origin, origin, p, 0);
                    } else {
                        assert(current == queued[queued.len() - 1]);
                        assert(before[current]);
                        let len = choose|len: nat|
                            len > 0 && #[trigger] walk(links, origin, current, len);
                        lemma_walk_extend(links, origin, current, p, len);
                    }
                }
            }
            assert forall|a: Pos, b: Pos|
                #![trigger adjacent(a, b)]
                (a == origin || (flooded@.contains(a) && flooded@[a])) && !pending@.contains(a)
                    && adjacent(a, b) && flooded@.contains(b) implies flooded@[b] || call_ensures(
                floodable,
                (b,),
                false,
            ) by {
                if a == current {
                } else {
                    assert(!queued.contains(a)) by {
                        if queued.contains(a) {
                            let i = choose|i: int| 0 <= i < queued.len() && queued[i] == a;
                            assert(i < rest.len());
                            assert(rest[i] == a);
                            assert(pending@.subrange(0, rest.len() as int)[i] == a);
                            assert(pending@[i] == a);
                        }
                    }
                    assert(before[b] || call_ensures(floodable, (b,), false));
                }
            }
        }
    }
    proof {
        let marked = marked_cells(flooded@);
        assert forall|open: Set<Pos>| #[trigger] decides(grid@, floodable, open) implies marked
            == flood_region(open, origin) by {
            let region = flood_region(open, origin);
            let wider = entering(open);
            assert(links.subset_of(wider));
            assert forall|p: Pos| marked.contains(p) implies region.contains(p) by {
                let len = choose|len: nat| len > 0 && #[trigger] walk(links, origin, p, len);
                lemma_walk_in_more_links(links, wider, origin, p, len);
            }
            assert forall|p: Pos| region.contains(p) implies marked.contains(p) by {
                let len = choose|len: nat| len > 0 && #[trigger] walk(wider, origin, p, len);
                assert forall|a: Pos, b: Pos|
                    (a == origin || marked.contains(a)) && #[trigger] wider.contains((a, b))
                        implies marked.contains(b) by {
                    assert(!pending@.contains(a));
                    assert(adjacent(a, b));
                    assert(flooded@[b] || call_ensures(floodable, (b,), false));
                }
                lemma_closed_holds_walks(wider, origin, marked, p, len);
            }
            assert(marked =~= region);
        }
    }
    flooded
}

/// Membership in a set of cells, as a predicate.
pub open spec fn member_of(region: Set<Pos>) -> spec_fn(Pos) -> bool {
    |p: Pos| region.contains(p)
}

/// The cells of `region`, in the row-major order of the grid.
pub open spec fn in_order<T>(grid: GridView<T>, region: Set<Pos>) -> Seq<Pos> {
    grid.positions().filter(member_of(region))
}

proof fn lemma_filter_distinct(s: Seq<Pos>, pred: spec_fn(Pos) -> bool)
    requires
        s.no_duplicates(),
    ensures
        s.filter(pred).no_duplicates(),
        forall|p: Pos| #[trigger] s.filter(pred).contains(p) <==> s.contains(p) && pred(p),
    decreases s.len(),
{
    reveal(Seq::filter);
    if s.len() > 0 {
        let rest = s.drop_last();
        let last = s.last();
        lemma_filter_distinct(rest, pred);
        let kept = rest.filter(pred);
        assert(!rest.contains(last)) by {
            if rest.contains(last) {
                let i = choose|i: int| 0 <= i < rest.len() && rest[i] == last;
                assert(s[i] == s[s.len() - 1]);
            }
        }
        let out = s.filter(pred);
        assert forall|i: int, j: int|
            0 <= i < out.len() && 0 <= j < out.len() && i != j implies out[i] != out[j] by {
            if pred(last) {
                assert(out == kept.push(last));
                if i == kept.len() {
                    assert(kept[j] == out[j]);
                    assert(kept.contains(out[j]));
                } else if j == kept.len() {
                    assert(kept[i] == out[i]);
                    assert(kept.contains(out[i]));
                } else {
                    assert(kept[i] == out[i] && kept[j] == out[j]);
                }
            }
        }
        assert forall|p: Pos| #[trigger] s.filter(pred).contains(p) <==> s.contains(p) && pred(
            p,
        ) by {
            if s.filter(pred).contains(p) {
                let i = choose|i: int| 0 <= i < s.filter(pred).len() && s.filter(pred)[i] == p;
                if pred(last) && i == kept.len() {
                    assert(s[s.len() - 1] == p);
                } else {
                    assert(kept[i] == p);
                    assert(kept.contains(p));
                    let j = choose|j: int| 0 <= j < rest.len() && rest[j] == p;
                    assert(s[j] == p);
                }
            }
            if s.contains(p) && pred(p) {
                let j = choose|j: int| 0 <= j < s.len() && s[j] == p;
                if j == s.len() - 1 {
                    assert(s.filter(pred)[kept.len() as int] == p);
                } else {
                    assert(rest[j] == p);
                    assert(kept.contains(p));
                    let i = choose|i: int| 0 <= i < kept.len() && kept[i] == p;
                    assert(s.filter(pred)[i] == p);
                }
            }
        }
    }
}

/// Listing a set of cells of the grid in row-major order names each of its
/// cells once.
pub proof fn lemma_in_order<T>(grid: GridView<T>, region: Set<Pos>)
    requires
        grid.wf(),
        forall|p: Pos| region.contains(p) ==> grid.contains(p),
    ensures
        region.finite(),
        in_order(grid, region).no_duplicates(),
        in_order(grid, region).len() == region.len(),
        forall|p: Pos| #[trigger] in_order(grid, region).contains(p) <==> region.contains(p),
{
    lemma_cells_finite(grid);
    let all = grid.positions();
    let listed = in_order(grid, region);
    lemma_filter_distinct(all, member_of(region));
    assert forall|p: Pos| #[trigger] listed.contains(p) <==> region.contains(p) by {
        if region.contains(p) {
            assert(all.to_set().contains(p));
        }
    }
    assert(listed.to_set() =~= region);
    listed.unique_seq_to_set();
    lemma_len_subset(region, grid.cells.dom());
}

/// The marked cells of a mask, in row-major order.
pub fn flooded_positions(flooded: &Grid<bool>) -> (cells: Vec<Pos>)
    requires
        flooded.wf(),
    ensures
        cells@ == in_order(flooded@, marked_cells(flooded@)),
        cells@.len() == marked_cells(flooded@).len(),
        forall|p: Pos| #[trigger] cells@.contains(p) <==> marked_cells(flooded@).contains(p),
{
    let all: Vec<Pos> = flooded.positions();
    let ghost marked = member_of(marked_cells(flooded@));
    let mut cells: Vec<Pos> = Vec::new();
    let mut i: usize = 0;
    proof {
        reveal(Seq::filter);
        assert(all@.take(0) =~= Seq::<Pos>::empty());
    }
    while i < all.len()
        invariant
            flooded.wf(),
            all@ == flooded@.positions(),
            marked == member_of(marked_cells(flooded@)),
            i <= all@.len(),
            cells@ == all@.take(i as int).filter(marked),
        decreases all@.len() - i,
    {
        let p: Pos = all[i];
        proof {
            reveal(Seq::filter);
            lemma_position_at(flooded@, i as int);
            assert(all@.take(i + 1).drop_last() =~= all@.take(i as int));
            assert(all@.take(i + 1).last() == p);
        }
        if flooded.get(p) {
            cells.push(p);
        }
        i += 1;
    }
    proof {
        assert(all@.take(i as int) =~= all@);
        lemma_in_order(flooded@, marked_cells(flooded@));
    }
    cells
}

/// A walk from `a` to `b` followed by a walk from `b` to `c` is a walk from
/// `a` to `c`.
pub proof fn lemma_walk_join(
    links: Set<(Pos, Pos)>,
    a: Pos,
    b: Pos,
    c: Pos,
    first: nat,
    second: nat,
)
    requires
        walk(links, a, b, first),
        walk(links, b, c, second),
    ensures
        walk(links, a, c, first + second),
    decreases second,
{
    if second > 0 {
        let mid = choose|mid: Pos|
            walk(links, b, mid, (second - 1) as nat) && #[trigger] links.contains((mid, c));
        lemma_walk_join(links, a, b, mid, first, (second - 1) as nat);
        lemma_walk_extend(links, a, mid, c, (first + second - 1) as nat);
    }
}

/// Every link can be followed in both directions.
pub open spec fn symmetric(links: Set<(Pos, Pos)>) -> bool {
    forall|a: Pos, b: Pos| #[trigger] links.contains((a, b)) ==> links.contains((b, a))
}

/// Where every link can be followed in both directions, so can every walk.
pub proof fn lemma_walk_back(links: Set<(Pos, Pos)>, a: Pos, b: Pos, len: nat)
    requires
        symmetric(links),
        walk(links, a, b, len),
    ensures
        walk(links, b, a, len),
    decreases len,
{
    if len > 0 {
        let mid = choose|mid: Pos|
            walk(links, a, mid, (len - 1) as nat) && #[trigger] links.contains((mid, b));
        lemma_walk_back(links, a, mid, (len - 1) as nat);
        assert(links.contains((b, mid)));
        assert(walk(links, b, b, 0));
        lemma_walk_extend(links, b, b, mid, 0);
        lemma_walk_join(links, b, mid, a, 1, (len - 1) as nat);
    }
}

/// A walk, of any length, leads from `a` to `b`: the two cells belong to one
/// component.
pub open spec fn connected(links: Set<(Pos, Pos)>, a: Pos, b: Pos) -> bool {
    exists|len: nat| #[trigger] walk(links, a, b, len)
}

/// `same` is the relation that `equiv` stands for: a set of pairs of
/// adjacent cells of the grid that holds each pair in both directions, and
/// whatever `equiv` answers for such a pair tells whether the pair belongs
/// to it.
pub open spec fn relates<T, F: Fn(Pos, Pos) -> bool>(
    grid: GridView<T>,
    equiv: &F,
    same: Set<(Pos, Pos)>,
) -> bool {
    &&& forall|a: Pos, b: Pos| #[trigger]
        same.contains((a, b)) ==> grid.contains(a) && grid.contains(b) && adjacent(a, b)
    &&& symmetric(same)
    &&& forall|a: Pos, b: Pos, answer: bool|
        grid.contains(a) && grid.contains(b) && adjacent(a, b) && #[trigger] call_ensures(
            equiv,
            (a, b),
            answer,
        ) ==> answer == same.contains((a, b))
}

/// `equiv` can be asked about every pair of adjacent cells of the grid.
pub open spec fn askable_pairs<T, F: Fn(Pos, Pos) -> bool>(grid: GridView<T>, equiv: &F) -> bool {
    forall|a: Pos, b: Pos|
        grid.contains(a) && grid.contains(b) && adjacent(a, b) ==> #[trigger] call_requires(
            equiv,
            (a, b),
        )
}

/// The labels tell the components of the grid apart: every cell has a
/// positive label, and two cells have the same label exactly when they are
/// connected.
pub open spec fn labels_components(labels: GridView<u32>, same: Set<(Pos, Pos)>) -> bool {
    &&& forall|p: Pos| labels.contains(p) ==> #[trigger] labels.cells[p] >= 1
    &&& forall|p: Pos, q: Pos|
        labels.contains(p) && labels.contains(q) ==> ((#[trigger] labels.cells[p]
            == #[trigger] labels.cells[q]) <==> connected(same, p, q))
}

/// The labels are numbered from 1 in the order in which the row-major order
/// of the grid first meets them: a cell with a label above 1 comes after some
/// cell with the label just below.
pub open spec fn numbered_in_order(labels: GridView<u32>) -> bool {
    forall|p: Pos|
        labels.contains(p) && #[trigger] labels.cells[p] > 1 ==> exists|q: Pos|
            labels.contains(q) && labels.index_of(q) < labels.index_of(p)
                && #[trigger] labels.cells[q] + 1 == labels.cells[p]
}

/// The cells without a label.
pub open spec fn unlabeled_cells(labels: GridView<u32>) -> Set<Pos> {
    Set::new(|p: Pos| labels.contains(p) && labels[p] == 0)
}

/// The pairs of adjacent cells of the grid on which `equiv` is seen to
/// answer yes.
pub open spec fn accepted_pairs<T, F: Fn(Pos, Pos) -> bool>(grid: GridView<T>, equiv: &F) -> Set<
    (Pos, Pos),
> {
    Set::new(
        |pair: (Pos, Pos)|
            grid.contains(pair.0) && grid.contains(pair.1) && adjacent(pair.0, pair.1)
                && call_ensures(equiv, (pair.0, pair.1), true),
    )
}

/// Labelling one more cell shrinks the set of cells without a label by one.
proof fn lemma_label_one(before: GridView<u32>, after: GridView<u32>, p: Pos, label: u32)
    requires
        before.wf(),
        before.contains(p),
        before[p] == 0,
        label != 0,
        after == before.set(p, label),
    ensures
        unlabeled_cells(before).finite(),
        unlabeled_cells(after).len() + 1 == unlabeled_cells(before).len(),
{
    lemma_cells_finite(before);
    lemma_len_subset(unlabeled_cells(before), before.cells.dom());
    assert(unlabeled_cells(after) =~= unlabeled_cells(before).remove(p));
}

/// Expands one cell of a component: every neighbor of `pos` that lies in the
/// grid, has no label yet and is equivalent to `pos` gets the label `count`
/// and is queued.
fn flood_all_helper<F>(
    pos: Pos,
    equiv: &F,
    flooded: &mut Grid<u32>,
    count: u32,
    pending: &mut Vec<Pos>,
) where F: Fn(Pos, Pos) -> bool
    requires
        old(flooded).wf(),
        old(flooded)@.contains(pos),
        askable_pairs(old(flooded)@, equiv),
        count >= 1,
    ensures
        final(flooded).wf(),
        final(flooded)@.width == old(flooded)@.width,
        final(flooded)@.height == old(flooded)@.height,
        forall|q: Pos|
            #![trigger final(flooded)@.cells[q]]
            old(flooded)@.contains(q) ==> final(flooded)@[q] == old(flooded)@[q] || (old(
                flooded,
            )@[q] == 0 && final(flooded)@[q] == count && adjacent(pos, q) && call_ensures(
                equiv,
                (pos, q),
                true,
            ) && final(pending)@.contains(q)),
        forall|q: Pos|
            #![trigger adjacent(pos, q)]
            adjacent(pos, q) && old(flooded)@.contains(q) ==> final(flooded)@[q] != 0
                || call_ensures(equiv, (pos, q), false),
        final(pending)@.len() >= old(pending)@.len(),
        final(pending)@.subrange(0, old(pending)@.len() as int) == old(pending)@,
        forall|i: int|
            old(pending)@.len() <= i < final(pending)@.len() ==> final(flooded)@.contains(
                #[trigger] final(pending)@[i],
            ) && final(flooded)@[final(pending)@[i]] == count,
        unlabeled_cells(final(flooded)@).len() + final(pending)@.len() == unlabeled_cells(
            old(flooded)@,
        ).len() + old(pending)@.len(),
{
    let mut dir: usize = 0;
    while dir < 6
        invariant
            dir <= 6,
            count >= 1,
            flooded.wf(),
            flooded@.width == old(flooded)@.width,
            flooded@.height == old(flooded)@.height,
            flooded@.contains(pos),
            askable_pairs(old(flooded)@, equiv),
            forall|q: Pos|
                #![trigger flooded@.cells[q]]
                old(flooded)@.contains(q) ==> flooded@[q] == old(flooded)@[q] || (old(
                    flooded,
                )@[q] == 0 && flooded@[q] == count && adjacent(pos, q) && call_ensures(
                    equiv,
                    (pos, q),
                    true,
                ) && pending@.contains(q)),
            forall|q: Pos, d: int|
                #![trigger steps_to(pos, d, q)]
                0 <= d < dir && steps_to(pos, d, q) && old(flooded)@.contains(q) ==> flooded@[q]
                    != 0 || call_ensures(equiv, (pos, q), false),
            pending@.len() >= old(pending)@.len(),
            pending@.subrange(0, old(pending)@.len() as int) == old(pending)@,
            forall|i: int|
                old(pending)@.len() <= i < pending@.len() ==> flooded@.contains(
                    #[trigger] pending@[i],
                ) && flooded@[pending@[i]] == count,
            unlabeled_cells(flooded@).len() + pending@.len() == unlabeled_cells(
                old(flooded)@,
            ).len() + old(pending)@.len(),
        decreases 6 - dir,
    {
        let ghost before = flooded@;
        let ghost queued = pending@;
        match flooded.neighbor_in(pos, dir) {
            Some(next) => {
                assert(adjacent(pos, next));
                if flooded.get(next) == 0 && equiv(pos, next) {
                    flooded.set(next, count);
                    pending.push(next);
                    proof {
                        lemma_label_one(before, flooded@, next, count);
                        assert(pending@ == queued.push(next));
                        assert(pending@[queued.len() as int] == next);
                        assert forall|q: Pos| queued.contains(q) implies pending@.contains(q) by {
                            let i = choose|i: int| 0 <= i < queued.len() && queued[i] == q;
                            assert(pending@[i] == q);
                        }
                        assert(pending@.subrange(0, old(pending)@.len() as int) =~= queued.subrange(
                            0,
                            old(pending)@.len() as int,
                        ));
                    }
                }
            },
            None => {},
        }
        dir += 1;
    }
}

/// Where linked cells have equal labels, so have the two ends of a walk.
proof fn lemma_walk_keeps_label(
    labels: GridView<u32>,
    links: Set<(Pos, Pos)>,
    a: Pos,
    b: Pos,
    len: nat,
)
    requires
        forall|p: Pos, q: Pos| #[trigger] links.contains((p, q)) ==> labels[p] == labels[q],
        walk(links, a, b, len),
    ensures
        labels[a] == labels[b],
    decreases len,
{
    if len > 0 {
        let mid = choose|mid: Pos|
            walk(links, a, mid, (len - 1) as nat) && #[trigger] links.contains((mid, b));
        lemma_walk_keeps_label(labels, links, a, mid, (len - 1) as nat);
    }
}

/// Partitions the grid into its connected components.
///
/// Two adjacent cells belong together where `equiv` says so; `equiv` is
/// asked about pairs of adjacent cells of the grid only. Whatever symmetric
/// relation the predicate stands for, every cell gets a positive label, and
/// two cells get the same label exactly when a chain of adjacent cells that
/// belong together leads from one to the other. The components are numbered
/// from 1 in the order of their first cells.
pub fn flood_all<F, T: Copy>(grid: &Grid<T>, equiv: &F) -> (flooded: Grid<u32>) where
    F: Fn(Pos, Pos) -> bool,

    requires
        grid.wf(),
        grid@.width * grid@.height <= u32::MAX,
        askable_pairs(grid@, equiv),
    ensures
        flooded.wf(),
        flooded@.width == grid@.width,
        flooded@.height == grid@.height,
        forall|same: Set<(Pos, Pos)>| #[trigger]
            relates(grid@, equiv, same) ==> labels_components(flooded@, same),
        numbered_in_order(flooded@),
{
    let mut flooded: Grid<u32> = Grid::new(grid.width(), grid.height(), 0u32);
    let mut count: u32 = 0;
    let all: Vec<Pos> = grid.positions();
    let ghost seen = accepted_pairs(grid@, equiv);
    let ghost mut leaders: Seq<Pos> = Seq::empty();
    let mut i: usize = 0;
    proof {
        lemma_cells_finite(flooded@);
        lemma_len_subset(unlabeled_cells(flooded@), flooded@.cells.dom());
    }
    while i < all.len()
        invariant
            i <= all@.len(),
            all@ == grid@.positions(),
            grid.wf(),
            flooded.wf(),
            flooded@.width == grid@.width,
            flooded@.height == grid@.height,
            grid@.width * grid@.height <= u32::MAX,
            askable_pairs(grid@, equiv),
            seen == accepted_pairs(grid@, equiv),
            count == leaders.len(),
            count + unlabeled_cells(flooded@).len() <= grid@.width * grid@.height,
            forall|p: Pos| flooded@.contains(p) ==> #[trigger] flooded@.cells[p] <= count,
            forall|j: int| 0 <= j < i ==> flooded@[#[trigger] all@[j]] >= 1,
            forall|p: Pos|
                flooded@.contains(p) && #[trigger] flooded@.cells[p] >= 1 ==> connected(
                    seen,
                    leaders[flooded@[p] - 1],
                    p,
                ),
            forall|a: Pos, b: Pos|
                #![trigger adjacent(a, b)]
                flooded@.contains(a) && flooded@.contains(b) && adjacent(a, b) && flooded@[a] >= 1
                    ==> (1 <= flooded@[b] <= flooded@[a]) || call_ensures(equiv, (a, b), false),
            forall|k: int|
                0 <= k < leaders.len() ==> flooded@.contains(#[trigger] leaders[k])
                    && flooded@[leaders[k]] == k + 1 && flooded@.index_of(leaders[k]) < i,
            forall|k: int|
                0 < k < leaders.len() ==> flooded@.index_of(leaders[k - 1]) < flooded@.index_of(
                    #[trigger] leaders[k],
                ),
            forall|p: Pos|
                flooded@.contains(p) && #[trigger] flooded@.cells[p] >= 1 ==> flooded@.index_of(
                    leaders[flooded@[p] - 1],
                ) <= flooded@.index_of(p),
        decreases all@.len() - i,
    {
        let pos: Pos = all[i];
        proof {
            lemma_position_at(grid@, i as int);
        }
        if flooded.get(pos) == 0 {
            let ghost unlabeled = flooded@;
            proof {
                lemma_cells_finite(flooded@);
                lemma_len_subset(unlabeled_cells(flooded@), flooded@.cells.dom());
                assert(unlabeled_cells(flooded@).contains(pos));
                assert(unlabeled_cells(flooded@).len() >= 1) by {
                    if unlabeled_cells(flooded@).len() == 0 {
                        assert(unlabeled_cells(flooded@) =~= Set::<Pos>::empty());
                    }
                }
            }
            count += 1;
            flooded.set(pos, count);
            let mut pending: Vec<Pos> = Vec::new();
            pending.push(pos);
            proof {
                lemma_label_one(unlabeled, flooded@, pos, count);
                leaders = leaders.push(pos);
                assert(pending@[0] == pos);
                assert(walk(seen, pos, pos, 0));
            }
            while pending.len() > 0
                invariant
                    grid.wf(),
                    flooded.wf(),
                    flooded@.width == grid@.width,
                    flooded@.height == grid@.height,
                    askable_pairs(grid@, equiv),
                    seen == accepted_pairs(grid@, equiv),
                    count >= 1,
                    count == leaders.len(),
                    count + unlabeled_cells(flooded@).len() <= grid@.width * grid@.height,
                    forall|p: Pos| flooded@.contains(p) ==> #[trigger] flooded@.cells[p] <= count,
                    flooded@.contains(pos),
                    flooded@[pos] >= 1,
                    i < all@.len(),
                    all@ == grid@.positions(),
                    forall|j: int| 0 <= j < i ==> flooded@[#[trigger] all@[j]] >= 1,
                    forall|k: int|
                        0 <= k < pending@.len() ==> flooded@.contains(#[trigger] pending@[k])
                            && flooded@[pending@[k]] == count,
                    forall|p: Pos|
                        flooded@.contains(p) && #[trigger] flooded@.cells[p] >= 1 ==> connected(
                            seen,
                            leaders[flooded@[p] - 1],
                            p,
                        ),
                    forall|a: Pos, b: Pos|
                        #![trigger adjacent(a, b)]
                        flooded@.contains(a) && flooded@.contains(b) && adjacent(a, b)
                            && flooded@[a] >= 1 && !pending@.contains(a) ==> (1 <= flooded@[b]
                            <= flooded@[a]) || call_ensures(equiv, (a, b), false),
                    forall|k: int|
                        0 <= k < leaders.len() ==> flooded@.contains(#[trigger] leaders[k])
                            && flooded@[leaders[k]] == k + 1 && flooded@.index_of(leaders[k]) <= i,
                    forall|k: int|
                        0 < k < leaders.len() ==> flooded@.index_of(leaders[k - 1])
                            < flooded@.index_of(#[trigger] leaders[k]),
                    forall|p: Pos|
                        flooded@.contains(p) && #[trigger] flooded@.cells[p] >= 1
                            ==> flooded@.index_of(leaders[flooded@[p] - 1]) <= flooded@.index_of(p),
                    leaders[count - 1] == pos,
                    pos == all@[i as int],
                decreases unlabeled_cells(flooded@).len() + pending@.len(),
            {
                let ghost before = flooded@;
                let ghost queued = pending@;
                let current: Pos = pending.pop().unwrap();
                let ghost rest = pending@;
                assert(askable_pairs(flooded@, equiv));
                flood_all_helper(current, equiv, &mut flooded, count, &mut pending);
                proof {
                    assert(queued[queued.len() - 1] == current);
                    assert forall|j: int| 0 <= j < i implies flooded@[#[trigger] all@[j]] >= 1 by {
                        lemma_position_at(grid@, j);
                        assert(before[all@[j]] >= 1);
                    }
                    assert forall|k: int| 0 <= k < pending@.len() implies flooded@.contains(
                        #[trigger] pending@[k],
                    ) && flooded@[pending@[k]] == count by {
                        if k < rest.len() {
                            assert(pending@.subrange(0, rest.len() as int)[k] == rest[k]);
                            assert(rest[k] == queued[k]);
                        }
                    }
                    assert forall|p: Pos|
                        flooded@.contains(p) && #[trigger] flooded@.cells[p] >= 1 implies connected(
                        seen,
                        leaders[flooded@[p] - 1],
                        p,
                    ) by {
                        if before[p] == 0 {
                            let leader = leaders[count - 1];
                            assert(seen.contains((current, p)));
                            assert(before.cells[current] >= 1);
                            let len = choose|len: nat| #[trigger] walk(seen, leader, current, len);
                            lemma_walk_extend(seen, leader, current, p, len);
                        }
                    }
                    assert forall|p: Pos|
                        flooded@.contains(p) && #[trigger] flooded@.cells[p] >= 1
                            implies flooded@.index_of(leaders[flooded@[p] - 1])
                        <= flooded@.index_of(p) by {
                        if before[p] == 0 {
                            lemma_position_at(grid@, i as int);
                            lemma_index_of(grid@, p);
                            if grid@.index_of(p) < i {
                                assert(before[all@[grid@.index_of(p)]] >= 1);
                            }
                        }
                    }
                    assert forall|a: Pos, b: Pos|
                        #![trigger adjacent(a, b)]
                        flooded@.contains(a) && flooded@.contains(b) && adjacent(a, b)
                            && flooded@[a] >= 1 && !pending@.contains(a) implies (1 <= flooded@[b]
                        <= flooded@[a]) || call_ensures(equiv, (a, b), false) by {
                        assert(flooded@.cells[b] <= count);
                        if a != current {
                            assert(!queued.contains(a)) by {
                                if queued.contains(a) {
                                    let k = choose|k: int| 0 <= k < queued.len() && queued[k] == a;
                                    assert(k < rest.len());
                                    assert(rest[k] == a);
                                    assert(pending@.subrange(0, rest.len() as int)[k] == a);
                                    assert(pending@[k] == a);
                                }
                            }
                            assert(before.cells[a] >= 1);
                        }
                    }
                }
            }
        }
        i += 1;
    }
    proof {
        assert forall|p: Pos|
            flooded@.contains(p) && #[trigger] flooded@.cells[p] > 1 implies exists|q: Pos|
            flooded@.contains(q) && flooded@.index_of(q) < flooded@.index_of(p)
                && #[trigger] flooded@.cells[q] + 1 == flooded@.cells[p] by {
            let label = flooded@[p] as int;
            let q = leaders[label - 2];
            assert(flooded@.index_of(leaders[label - 2]) < flooded@.index_of(leaders[label - 1]));
            assert(flooded@.cells[q] + 1 == flooded@.cells[p]);
        }
        assert forall|same: Set<(Pos, Pos)>| #[trigger]
            relates(grid@, equiv, same) implies labels_components(flooded@, same) by {
            let labels = flooded@;
            assert forall|p: Pos| labels.contains(p) implies #[trigger] labels.cells[p] >= 1 by {
                lemma_index_of(grid@, p);
                assert(all@[grid@.index_of(p)] == p);
            }
            assert forall|a: Pos, b: Pos| #[trigger] same.contains((a, b)) implies labels[a]
                == labels[b] by {
                assert(same.contains((b, a)));
                assert(adjacent(a, b));
                assert(adjacent(b, a));
                assert(labels.cells[a] >= 1 && labels.cells[b] >= 1);
            }
            assert(seen.subset_of(same));
            assert forall|p: Pos, q: Pos|
                labels.contains(p) && labels.contains(q) implies ((#[trigger] labels.cells[p]
                == #[trigger] labels.cells[q]) <==> connected(same, p, q)) by {
                if connected(same, p, q) {
                    let len = choose|len: nat| #[trigger] walk(same, p, q, len);
                    lemma_walk_keeps_label(labels, same, p, q, len);
                }
                if labels[p] == labels[q] {
                    let leader = leaders[labels[p] - 1];
                    let to_p = choose|len: nat| #[trigger] walk(seen, leader, p, len);
                    let to_q = choose|len: nat| #[trigger] walk(seen, leader, q, len);
                    lemma_walk_in_more_links(seen, same, leader, p, to_p);
                    lemma_walk_in_more_links(seen, same, leader, q, to_q);
                    lemma_walk_back(same, leader, p, to_p);
                    lemma_walk_join(same, p, leader, q, to_p, to_q);
                }
            }
        }
    }
    flooded
}

} // verus!
