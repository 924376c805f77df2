use hexadventure::level::basic::calc_shuffled_positions;
use hexadventure::level::basic::carve_caves;
use hexadventure::level::basic::count_floor_groups;
use hexadventure::level::basic::fill_dead_end;
use hexadventure::level::basic::generate;
use hexadventure::level::basic::has_wall_frame;
use hexadventure::level::basic::is_cave;
use hexadventure::level::basic::is_dead_end;
use hexadventure::level::basic::remove_isolated_walls;
use hexadventure::level::basic::remove_small_caves;
use hexadventure::level::basic::Tile;
use hexadventure::level::random::is_usable_seed;
use hexadventure::level::tile::Ground;
use hexadventure::util::floodfill::flood_all;
use hexadventure::util::grid::Grid;
use hexadventure::util::grid::Pos;

fn pos(x: i32, y: i32) -> Pos {
    Pos { x, y }
}

/// A grid of tiles from a picture: `.` is floor, anything else wall.
fn tiles(rows: &[&str]) -> Grid<Tile> {
    let mut grid: Grid<Tile> = Grid::new(rows[0].len(), rows.len(), Tile::Wall);
    for (y, row) in rows.iter().enumerate() {
        for (x, c) in row.chars().enumerate() {
            if c == '.' {
                grid.set(pos(x as i32, y as i32), Tile::Floor);
            }
        }
    }
    grid
}

fn picture(grid: &Grid<Tile>) -> Vec<String> {
    let mut rows = Vec::new();
    for y in 0..grid.height() {
        let mut row = String::new();
        for x in 0..grid.width() {
            let tile = grid.get(pos(x as i32, y as i32));
            row.push(if tile == Tile::Wall { '#' } else { '.' });
        }
        rows.push(row);
    }
    rows
}

/// The ring around the middle of a 3 by 3 grid, set from a word of six
/// letters in ring order.
fn ring_of(word: &str) -> Grid<Tile> {
    let mut grid: Grid<Tile> = Grid::new(3, 3, Tile::Wall);
    let ring = pos(1, 1).neighbors();
    for (dir, c) in word.chars().enumerate() {
        if c == '.' {
            grid.set(ring[dir], Tile::Floor);
        }
    }
    grid
}

/// The sizes of the connected regions of one kind of tile, in the order of
/// their first cells.
fn region_sizes(grid: &Grid<Tile>, tile: Tile) -> Vec<usize> {
    let labels = flood_all(grid, &|a: Pos, b: Pos| grid.get(a) == grid.get(b));
    let mut sizes: Vec<usize> = Vec::new();
    let mut kinds: Vec<Tile> = Vec::new();
    for p in grid.positions() {
        let label = labels.get(p) as usize;
        if label > sizes.len() {
            sizes.push(0);
            kinds.push(grid.get(p));
        }
        sizes[label - 1] += 1;
    }
    (0..sizes.len()).filter(|&i| kinds[i] == tile).map(|i| sizes[i]).collect()
}

#[test]
fn test_no_dead_ends() {
    let grid = generate(40, 40, [1, 2, 3, 4]);
    for pos in grid.positions() {
        assert!(!is_dead_end(pos, &grid));
    }
}

#[test]
fn tiles_know_whether_they_are_floor() {
    assert!(Tile::Floor.is_floor());
    assert!(!Tile::Wall.is_floor());
    assert_ne!(Tile::Floor, Tile::Wall);
}

#[test]
fn floor_groups_count_the_arcs_of_floor() {
    let middle = pos(1, 1);
    assert_eq!(count_floor_groups(middle, &ring_of("######")), 0);
    assert_eq!(count_floor_groups(middle, &ring_of("......")), 1);
    assert_eq!(count_floor_groups(middle, &ring_of(".#####")), 1);
    assert_eq!(count_floor_groups(middle, &ring_of("#####.")), 1);
    assert_eq!(count_floor_groups(middle, &ring_of("##.###")), 1);
    assert_eq!(count_floor_groups(middle, &ring_of("#..###")), 1);
    assert_eq!(count_floor_groups(middle, &ring_of(".....#")), 1);
    assert_eq!(count_floor_groups(middle, &ring_of("#.....")), 1);
    assert_eq!(count_floor_groups(middle, &ring_of(".##.##")), 2);
    assert_eq!(count_floor_groups(middle, &ring_of("..#.##")), 2);
    assert_eq!(count_floor_groups(middle, &ring_of("#.#..#")), 2);
    assert_eq!(count_floor_groups(middle, &ring_of(".#.#.#")), 3);
    assert_eq!(count_floor_groups(middle, &ring_of("#.#.#.")), 3);
}

#[test]
fn floor_groups_join_an_arc_across_the_start_of_the_ring() {
    // the last and the first cell of the ring are next to each other
    assert_eq!(count_floor_groups(pos(1, 1), &ring_of(".####.")), 1);
    assert_eq!(count_floor_groups(pos(1, 1), &ring_of("..##..")), 1);
    assert_eq!(count_floor_groups(pos(1, 1), &ring_of(".#.#..")), 2);
}

#[test]
fn floor_groups_do_not_look_at_the_cell_itself() {
    let mut grid = ring_of("#.#..#");
    assert_eq!(count_floor_groups(pos(1, 1), &grid), 2);
    grid.set(pos(1, 1), Tile::Floor);
    assert_eq!(count_floor_groups(pos(1, 1), &grid), 2);
}

#[test]
fn cave_cells_touch_one_arc_of_floor() {
    let grid = tiles(&[
        "#######", //
        "#######", //
        "#....##", //
        "#######", //
        "####.##", //
        "#######", //
    ]);
    assert!(is_cave(pos(1, 2), &grid));
    assert!(!is_cave(pos(2, 2), &grid));
    assert!(!is_cave(pos(3, 2), &grid));
    assert!(is_cave(pos(4, 2), &grid));
    // a wall is no cave, whatever it touches
    assert!(!is_cave(pos(5, 2), &grid));
    assert!(!is_cave(pos(0, 2), &grid));
    // a floor cell without floor around it is no cave either
    assert!(!is_cave(pos(4, 4), &grid));
}

#[test]
fn dead_ends_have_no_cave_next_to_them() {
    let corridor = tiles(&[
        "#######", //
        "#######", //
        "#....##", //
        "#######", //
        "#######", //
    ]);
    assert!(is_dead_end(pos(1, 2), &corridor));
    assert!(!is_dead_end(pos(2, 2), &corridor));
    assert!(!is_dead_end(pos(3, 2), &corridor));
    assert!(is_dead_end(pos(4, 2), &corridor));
    assert!(!is_dead_end(pos(5, 2), &corridor));
    assert!(!is_dead_end(pos(0, 0), &corridor));
    let pair = tiles(&[
        "#####", //
        "#####", //
        "#..##", //
        "#####", //
        "#####", //
    ]);
    assert!(is_cave(pos(1, 2), &pair) && is_cave(pos(2, 2), &pair));
    assert!(!is_dead_end(pos(1, 2), &pair));
    assert!(!is_dead_end(pos(2, 2), &pair));
}

#[test]
fn fill_dead_end_follows_the_corridor() {
    let mut grid = tiles(&[
        "#######", //
        "#######", //
        "#....##", //
        "#######", //
        "#######", //
    ]);
    fill_dead_end(pos(4, 2), &mut grid);
    // the tip and the cell behind it go; the last two are caves next to
    // each other
    assert_eq!(
        picture(&grid),
        vec!["#######", "#######", "#..####", "#######", "#######"]
    );
    assert!(!is_dead_end(pos(4, 2), &grid));
}

#[test]
fn fill_dead_end_leaves_other_cells_alone() {
    let before = tiles(&[
        "#######", //
        "#######", //
        "#....##", //
        "#######", //
        "#######", //
    ]);
    for p in [pos(2, 2), pos(3, 2), pos(5, 2), pos(0, 0), pos(3, 3)] {
        let mut grid = before.clone();
        fill_dead_end(p, &mut grid);
        assert_eq!(grid, before);
    }
    let mut short = tiles(&[
        "#####", //
        "#####", //
        "#...#", //
        "#####", //
        "#####", //
    ]);
    fill_dead_end(pos(3, 2), &mut short);
    assert_eq!(picture(&short), vec!["#####", "#####", "#..##", "#####", "#####"]);
}

#[test]
fn carving_skips_cells_that_touch_one_arc() {
    let mut grid: Grid<Tile> = Grid::new(5, 5, Tile::Wall);
    let order = vec![pos(2, 2), pos(3, 2), pos(1, 2), pos(1, 1), pos(2, 1)];
    carve_caves(&order, &mut grid);
    // (2,2) and (1,1) touch no floor, (2,1) joins the two of them;
    // (3,2) and (1,2) touch (2,2) alone
    assert_eq!(picture(&grid), vec!["#####", "#..##", "##.##", "#####", "#####"]);
}

#[test]
fn carving_depends_on_the_order() {
    let mut grid: Grid<Tile> = Grid::new(5, 5, Tile::Wall);
    let order = vec![pos(3, 2), pos(2, 2), pos(1, 2), pos(1, 1), pos(2, 1)];
    carve_caves(&order, &mut grid);
    // now (3,2) and (1,2) touch no floor, and each of the others touches one
    // of them alone
    assert_eq!(picture(&grid), vec!["#####", "#####", "#.#.#", "#####", "#####"]);
    let mut untouched: Grid<Tile> = Grid::new(5, 5, Tile::Wall);
    carve_caves(&[], &mut untouched);
    assert_eq!(untouched, Grid::new(5, 5, Tile::Wall));
}

#[test]
fn walls_in_groups_of_five_or_less_become_floor() {
    let mut five = tiles(&[
        "##########", //
        "#........#", //
        "#.#####..#", //
        "#........#", //
        "##########", //
    ]);
    remove_isolated_walls(&mut five);
    assert_eq!(
        picture(&five),
        vec!["##########", "#........#", "#........#", "#........#", "##########"]
    );
    let mut one = tiles(&[
        "##########", //
        "#........#", //
        "#..#.....#", //
        "#........#", //
        "##########", //
    ]);
    remove_isolated_walls(&mut one);
    assert_eq!(
        picture(&one),
        vec!["##########", "#........#", "#........#", "#........#", "##########"]
    );
}

#[test]
fn walls_in_groups_of_six_stay() {
    let before = tiles(&[
        "##########", //
        "#........#", //
        "#.######.#", //
        "#........#", //
        "##########", //
    ]);
    let mut grid = before.clone();
    remove_isolated_walls(&mut grid);
    assert_eq!(grid, before);
}

#[test]
fn walls_joined_to_the_frame_stay() {
    let before = tiles(&[
        "#######", //
        "#.#...#", //
        "#.....#", //
        "#...#.#", //
        "#######", //
    ]);
    let mut grid = before.clone();
    remove_isolated_walls(&mut grid);
    assert_eq!(grid, before);
    assert!(has_wall_frame(&grid));
}

#[test]
fn a_cave_of_four_stays_and_a_cave_of_two_is_cut() {
    let mut grid = tiles(&[
        "#########", //
        "#########", //
        "##..#####", //
        "##..#####", //
        "######..#", //
        "#########", //
        "#########", //
    ]);
    remove_small_caves(&mut grid);
    // of the two cells the first becomes wall; the second is left without
    // any floor next to it, which no rule removes
    assert_eq!(
        picture(&grid),
        vec![
            "#########",
            "#########",
            "##..#####",
            "##..#####",
            "#######.#",
            "#########",
            "#########",
        ]
    );
}

#[test]
fn a_corridor_of_three_is_cut_down_to_one_cell() {
    let mut grid = tiles(&[
        "#######", //
        "#######", //
        "##...##", //
        "#######", //
        "#######", //
    ]);
    remove_small_caves(&mut grid);
    assert_eq!(
        picture(&grid),
        vec!["#######", "#######", "####.##", "#######", "#######"]
    );
}

#[test]
fn small_cave_removal_keeps_an_all_wall_grid() {
    let mut grid: Grid<Tile> = Grid::new(4, 4, Tile::Wall);
    remove_small_caves(&mut grid);
    assert_eq!(grid, Grid::new(4, 4, Tile::Wall));
    remove_isolated_walls(&mut grid);
    assert_eq!(grid, Grid::new(4, 4, Tile::Wall));
}

#[test]
fn has_wall_frame_finds_floor_on_the_frame() {
    assert!(has_wall_frame(&tiles(&["###", "#.#", "###"])));
    assert!(!has_wall_frame(&tiles(&["#.#", "###", "###"])));
    assert!(!has_wall_frame(&tiles(&["###", "###", "##."])));
    assert!(!has_wall_frame(&tiles(&["###", ".##", "###"])));
    assert!(has_wall_frame(&tiles(&["####", "#..#", "####"])));
}

#[test]
fn seeds_of_four_zeros_are_not_usable() {
    assert!(!is_usable_seed(&[0, 0, 0, 0]));
    assert!(is_usable_seed(&[1, 0, 0, 0]));
    assert!(is_usable_seed(&[0, 0, 0, 7]));
    assert!(is_usable_seed(&[0, 5, 0, 0]));
    assert!(is_usable_seed(&[1, 2, 3, 4]));
}

#[test]
fn shuffled_positions_are_the_inner_cells_in_another_order() {
    let blank: Grid<Tile> = Grid::new(5, 5, Tile::Wall);
    let order = calc_shuffled_positions(&blank, [1, 2, 3, 4]);
    assert_eq!(
        order,
        vec![
            pos(3, 3),
            pos(3, 2),
            pos(1, 2),
            pos(1, 3),
            pos(2, 3),
            pos(3, 1),
            pos(2, 2),
            pos(1, 1),
            pos(2, 1),
        ]
    );
    assert_ne!(order, blank.inner_positions());
    let mut sorted = order.clone();
    sorted.sort_by_key(|p| (p.y, p.x));
    assert_eq!(sorted, blank.inner_positions());
    // the same seed gives the same order, another seed another one
    assert_eq!(calc_shuffled_positions(&blank, [1, 2, 3, 4]), order);
    assert_ne!(calc_shuffled_positions(&blank, [4, 3, 2, 1]), order);
    let thin: Grid<Tile> = Grid::new(2, 9, Tile::Wall);
    assert!(calc_shuffled_positions(&thin, [1, 2, 3, 4]).is_empty());
}

#[test]
fn generated_levels_have_a_wall_frame() {
    for (width, height) in [(3usize, 3usize), (4, 7), (9, 5), (16, 16), (40, 40)] {
        for first in 1..8u32 {
            let grid = generate(width, height, [first, 2, 3, 4]);
            assert_eq!(grid.width(), width);
            assert_eq!(grid.height(), height);
            assert!(has_wall_frame(&grid));
            for p in grid.positions() {
                if !grid.is_inner(p) {
                    assert_eq!(grid.get(p), Tile::Wall);
                }
            }
        }
    }
}

#[test]
fn generate_gives_the_same_level_for_the_same_arguments() {
    for seed in [[1u32, 2, 3, 4], [0, 0, 0, 1], [9, 9, 9, 9], [u32::MAX, 0, 7, 1]] {
        let first = generate(24, 17, seed);
        let second = generate(24, 17, seed);
        assert_eq!(first, second);
        assert_eq!(picture(&first), picture(&second));
    }
    assert_ne!(generate(24, 17, [1, 2, 3, 4]), generate(24, 17, [4, 3, 2, 1]));
}

#[test]
fn generate_on_the_smallest_grid_opens_the_one_inner_cell() {
    for seed in [[1u32, 2, 3, 4], [7, 7, 7, 7], [0, 1, 0, 0]] {
        let grid = generate(3, 3, seed);
        assert_eq!(picture(&grid), vec!["###", "#.#", "###"]);
    }
}

#[test]
fn generate_small_levels() {
    assert_eq!(
        picture(&generate(5, 5, [1, 2, 3, 4])),
        vec!["#####", "#####", "##.##", "###.#", "#####"]
    );
    assert_eq!(
        picture(&generate(5, 5, [7, 2, 3, 4])),
        vec!["#####", "##..#", "#.#.#", "#..##", "#####"]
    );
    assert_eq!(
        picture(&generate(8, 8, [56, 2, 3, 4])),
        vec![
            "########",
            "########",
            "##..####",
            "#.#.####",
            "#.....##",
            "########",
            "#.###.##",
            "########",
        ]
    );
}

#[test]
fn generate_forty_by_forty() {
    let expected = vec![
        "########################################",
        "###..##################......#####.##.##",
        "##.....#######.###..##.#####.#######...#",
        "##.......####..##.#...#...##..........##",
        "#......#.........####.....###.#####....#",
        "#....#####......#####.....##.####.....##",
        "##.#.####..........##....##.####......##",
        "####.####.......##.#....###...#.....####",
        "###...##......#.##.#.##....##.....######",
        "##....#.....###.##..###....###...#...###",
        "#....##....##..#..#.###...###.....##.#.#",
        "#...##.#..##....##.####....##...####.###",
        "#.#...###..#...##..##......###.#####.###",
        "##########....##...#........########.###",
        "#.#############...........#.########..##",
        "##..##########..........#...#####.#...##",
        "#.#.##########.........####.####......##",
        "#..#.########........#.##.#.####.....###",
        "###.#######.......####..##.###.#...#####",
        "#########.....##.####.#.##.####....#####",
        "########......##..#..##.#.########.###.#",
        "#####......####......#...########.######",
        "#####......####.....##...########.######",
        "###.#.....#####......#...###.####.#..###",
        "####.....#########.#....########.#.#.###",
        "###...###########.###..####...##..##.###",
        "###...#######......##.##...##.....##.###",
        "###.#..#####.###.#.##...#.##.#....#..###",
        "######......###.##.#.###.##.###....#...#",
        "#######.###....###...###...###.##....#.#",
        "#######.##....#.####.####.###.##.###..##",
        "######.##.....####....###....#.#.##.####",
        "######.#.##...####...##..##.###.##.#####",
        "######..###..####...##.###.....###.#####",
        "#################..##..#....######.....#",
        "##.##########.#######........##.####.#.#",
        "#####################........#######..##",
        "#####################.......############",
        "#.###########.######.....###############",
        "########################################",
    ];
    let grid = generate(40, 40, [1, 2, 3, 4]);
    assert_eq!(picture(&grid), expected);
    assert!(has_wall_frame(&grid));
    for p in grid.positions() {
        assert!(!is_dead_end(p, &grid));
    }
}

#[test]
fn cleaning_a_generated_level_again_changes_nothing_in_this_case() {
    let grid = generate(5, 5, [1, 2, 3, 4]);
    let mut again = grid.clone();
    remove_isolated_walls(&mut again);
    remove_small_caves(&mut again);
    assert_eq!(again, grid);
}

#[test]
fn a_dead_end_can_remain_in_a_generated_level() {
    // the end of the corridor in the fifth row has only a branching cell
    // next to it
    let mut grid = generate(8, 8, [56, 2, 3, 4]);
    let dead_ends: Vec<Pos> =
        grid.positions().into_iter().filter(|&p| is_dead_end(p, &grid)).collect();
    assert_eq!(dead_ends, vec![pos(5, 4)]);
    fill_dead_end(pos(5, 4), &mut grid);
    assert_eq!(
        picture(&grid),
        vec![
            "########",
            "########",
            "##..####",
            "#.#.####",
            "#..#####",
            "########",
            "#.###.##",
            "########",
        ]
    );
}

#[test]
fn a_lone_wall_can_remain_in_a_generated_level() {
    let grid = generate(5, 5, [7, 2, 3, 4]);
    assert_eq!(picture(&grid), vec!["#####", "##..#", "#.#.#", "#..##", "#####"]);
    assert_eq!(region_sizes(&grid, Tile::Wall), vec![18, 1]);
    assert_eq!(region_sizes(&grid, Tile::Floor), vec![6]);
}

#[test]
fn a_lone_floor_cell_can_remain_in_a_generated_level() {
    let smallest = generate(3, 3, [1, 2, 3, 4]);
    assert_eq!(region_sizes(&smallest, Tile::Floor), vec![1]);
    assert_eq!(region_sizes(&smallest, Tile::Wall), vec![8]);
    let small = generate(5, 5, [1, 2, 3, 4]);
    assert_eq!(region_sizes(&small, Tile::Floor), vec![1, 1]);
}

#[test]
fn regions_of_the_forty_by_forty_level() {
    let grid = generate(40, 40, [1, 2, 3, 4]);
    assert_eq!(
        region_sizes(&grid, Tile::Wall),
        vec![
            625, 18, 14, 21, 14, 7, 9, 15, 109, 1, 13, 1, 10, 49, 7, 9, 6, 6, 6, 10, 1, 8, 9, 1,
            6, 1
        ]
    );
    assert_eq!(
        region_sizes(&grid, Tile::Floor),
        vec![601, 1, 1, 1, 6, 2, 1, 1, 1, 1, 1, 1, 1, 1, 1, 1, 1, 1]
    );
}
