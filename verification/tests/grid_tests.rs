use wfc_terrain::{CellState, Contradiction, Direction, Grid, SymbolMap, Tile};

fn cells(grid: &Grid) -> Vec<String> {
    let mut all = Vec::new();
    for i in 0..grid.width() * grid.height() {
        all.push(grid.tile(i).unwrap().value.clone());
    }
    all
}

fn states(grid: &Grid) -> Vec<CellState> {
    let mut all = Vec::new();
    for i in 0..grid.width() * grid.height() {
        all.push(grid.tile(i).unwrap().state());
    }
    all
}

fn tiles(values: &[&str]) -> Vec<Tile> {
    values.iter().map(|v| Tile::new(v.to_string())).collect()
}

fn allowed_by(mask: &str, domain: &str) -> String {
    let mut t = Tile::new(domain.to_string());
    match t.prune(mask) {
        Ok(()) => t.value,
        Err(_) => String::new(),
    }
}

#[test]
fn new_grid_has_its_dimensions() {
    let grid = Grid::new(7, 3);
    assert_eq!(grid.width(), 7);
    assert_eq!(grid.height(), 3);
    assert!(grid.tile(20).is_some());
    assert!(grid.tile(21).is_none());
}

#[test]
fn border_initialization_five_by_five() {
    let grid = Grid::new(5, 5);
    let corner = allowed_by(
        SymbolMap::LEFT_EDGE,
        &allowed_by(SymbolMap::TOP_EDGE, SymbolMap::ALLPIECES),
    );
    assert_eq!(corner, " _");
    assert_eq!(grid.tile(0).unwrap().value, corner);
    let top = allowed_by(SymbolMap::TOP_EDGE, SymbolMap::ALLPIECES);
    assert_eq!(top, " _");
    for i in 1..4 {
        assert_eq!(grid.tile(i).unwrap().value, top);
    }
}

#[test]
fn border_initialization_every_cell() {
    let grid = Grid::new(5, 5);
    let expected = [
        " _", " _", " _", " _", " _",
        " /_#", " /\\_#", " /\\_#", " /\\_#", " \\_#",
        " /_#", " /\\_#", " /\\_#", " /\\_#", " \\_#",
        " /_#", " /\\_#", " /\\_#", " /\\_#", " \\_#",
        " /#", " /\\#", " /\\#", " /\\#", " \\#",
    ];
    assert_eq!(cells(&grid), expected);
}

#[test]
fn border_initialization_narrow_grids() {
    assert_eq!(cells(&Grid::new(1, 1)), [" "]);
    assert_eq!(cells(&Grid::new(2, 1)), [" ", " "]);
    assert_eq!(cells(&Grid::new(3, 1)), [" ", " ", " "]);
    assert_eq!(cells(&Grid::new(1, 3)), [" _", " _#", " #"]);
    assert_eq!(cells(&Grid::new(2, 2)), [" _", " _", " /#", " \\#"]);
    assert_eq!(cells(&Grid::new(1, 2)), [" _", " #"]);
    assert_eq!(cells(&Grid::new(3, 2)), [" _", " _", " _", " /#", " /\\#", " \\#"]);
}

#[test]
fn new_grid_points_at_its_first_smallest_cell() {
    assert_eq!(Grid::new(5, 5).most_constrained(), Some(0));
    assert_eq!(Grid::new(1, 3).most_constrained(), Some(0));
    assert_eq!(Grid::new(1, 1).most_constrained(), None);
    assert_eq!(Grid::new(4, 1).most_constrained(), None);
    assert_eq!(Grid::new(5, 5).find_min(), Ok(Some(0)));
}

#[test]
fn find_min_takes_the_first_of_the_smallest() {
    let grid = Grid::from_tiles(3, 2, tiles(&["#", " /_", "_#", " ", "/\\", " /\\_#"])).unwrap();
    assert_eq!(grid.find_min(), Ok(Some(2)));
    assert_eq!(grid.most_constrained(), Some(2));
    let grid = Grid::from_tiles(2, 1, tiles(&["#", " "])).unwrap();
    assert_eq!(grid.find_min(), Ok(None));
    assert_eq!(grid.most_constrained(), None);
    let grid = Grid::from_tiles(1, 3, tiles(&[" /\\", " /", "#"])).unwrap();
    assert_eq!(grid.find_min(), Ok(Some(1)));
}

#[test]
fn an_empty_tile_makes_no_grid() {
    assert!(matches!(
        Grid::from_tiles(2, 1, tiles(&["#", ""])),
        Err(Contradiction)
    ));
    assert!(matches!(
        Grid::from_tiles(1, 1, tiles(&[""])),
        Err(Contradiction)
    ));
}

#[test]
fn from_tiles_keeps_the_tiles() {
    let grid = Grid::from_tiles(2, 2, tiles(&["#", " /", "_", "xyz"])).unwrap();
    assert_eq!(cells(&grid), ["#", " /", "_", "xyz"]);
    assert_eq!(grid.width(), 2);
    assert_eq!(grid.height(), 2);
}

#[test]
fn neighbors_clip_at_the_border() {
    let grid = Grid::new(5, 5);
    assert_eq!(
        grid.neighbors(0),
        vec![(1, Direction::Right), (5, Direction::Bottom)]
    );
    assert_eq!(
        grid.neighbors(4),
        vec![(9, Direction::Bottom), (3, Direction::Left)]
    );
    assert_eq!(
        grid.neighbors(12),
        vec![
            (7, Direction::Top),
            (13, Direction::Right),
            (17, Direction::Bottom),
            (11, Direction::Left)
        ]
    );
    assert_eq!(
        grid.neighbors(20),
        vec![(15, Direction::Top), (21, Direction::Right)]
    );
    assert_eq!(
        grid.neighbors(24),
        vec![(19, Direction::Top), (23, Direction::Left)]
    );
    assert_eq!(
        grid.neighbors(10),
        vec![
            (5, Direction::Top),
            (11, Direction::Right),
            (15, Direction::Bottom)
        ]
    );
}

#[test]
fn neighbors_of_narrow_grids() {
    assert_eq!(Grid::new(1, 1).neighbors(0), vec![]);
    let row = Grid::new(3, 1);
    assert_eq!(row.neighbors(0), vec![(1, Direction::Right)]);
    assert_eq!(
        row.neighbors(1),
        vec![(2, Direction::Right), (0, Direction::Left)]
    );
    assert_eq!(row.neighbors(2), vec![(1, Direction::Left)]);
    let column = Grid::new(1, 3);
    assert_eq!(column.neighbors(0), vec![(1, Direction::Bottom)]);
    assert_eq!(
        column.neighbors(1),
        vec![(0, Direction::Top), (2, Direction::Bottom)]
    );
    assert_eq!(column.neighbors(2), vec![(1, Direction::Top)]);
}

#[test]
fn propagation_between_two_cells() {
    let symmap = SymbolMap::new();
    let mut grid = Grid::from_tiles(2, 1, tiles(&["#", " /\\_#"])).unwrap();
    assert_eq!(grid.prune(0, &symmap), Ok(()));
    let right_of_rock = symmap.get('#', &Direction::Right).unwrap();
    assert_eq!(right_of_rock, "#\\");
    let expected = allowed_by(right_of_rock, " /\\_#");
    assert_eq!(expected, "\\#");
    assert_eq!(cells(&grid), ["#".to_string(), expected]);
    assert_eq!(grid.most_constrained(), Some(1));
}

#[test]
fn propagation_reaches_beyond_the_neighbour() {
    let symmap = SymbolMap::new();
    let mut grid = Grid::from_tiles(3, 1, tiles(&["/", " /\\_#", " /\\_#"])).unwrap();
    assert_eq!(grid.prune(0, &symmap), Ok(()));
    assert_eq!(cells(&grid), ["/", "\\#", " _\\#"]);
}

#[test]
fn propagation_passes_over_solved_cells() {
    let symmap = SymbolMap::new();
    let mut grid = Grid::from_tiles(3, 1, tiles(&["#", " ", " /\\_#"])).unwrap();
    assert_eq!(grid.prune(0, &symmap), Ok(()));
    assert_eq!(cells(&grid), ["#", " ", " /\\_#"]);
    assert_eq!(grid.most_constrained(), Some(2));
}

#[test]
fn propagation_stops_where_nothing_changes() {
    let symmap = SymbolMap::new();
    let mut grid = Grid::from_tiles(3, 1, tiles(&["#", "#\\", " /\\_#"])).unwrap();
    assert_eq!(grid.prune(0, &symmap), Ok(()));
    assert_eq!(cells(&grid), ["#", "#\\", " /\\_#"]);
}

#[test]
fn propagation_in_all_four_directions() {
    let symmap = SymbolMap::new();
    let all = " /\\_#";
    let mut grid = Grid::from_tiles(
        3,
        3,
        tiles(&[" ", all, " ", all, "_", all, " ", all, " "]),
    )
    .unwrap();
    assert_eq!(grid.prune(4, &symmap), Ok(()));
    assert_eq!(
        cells(&grid),
        [" ", " /\\#", " ", " \\_", "_", " /_", " ", "#", " "]
    );
    assert_eq!(grid.most_constrained(), Some(3));
}

#[test]
fn propagation_reports_contradiction() {
    let symmap = SymbolMap::new();
    let mut grid = Grid::from_tiles(2, 1, tiles(&["#", " _"])).unwrap();
    assert_eq!(grid.prune(0, &symmap), Err(Contradiction));
    assert_eq!(cells(&grid), ["#", " _"]);
    assert_eq!(grid.most_constrained(), Some(1));
}

#[test]
fn collapse_reports_contradiction() {
    let symmap = SymbolMap::new();
    for seed in 0..10u64 {
        let mut grid = Grid::from_tiles(2, 1, tiles(&["/#", " _"])).unwrap();
        assert!(grid.check_weights(&symmap));
        assert_eq!(grid.collapse(seed, &symmap), Err(Contradiction));
        let left = grid.tile(0).unwrap().value.clone();
        assert!(left == "/" || left == "#");
        assert_eq!(grid.tile(1).unwrap().value, " _");
    }
}

#[test]
fn collapse_of_a_solved_grid_changes_nothing() {
    let symmap = SymbolMap::new();
    let mut grid = Grid::from_tiles(2, 1, tiles(&["#", " "])).unwrap();
    assert_eq!(grid.collapse(3, &symmap), Ok(()));
    assert_eq!(cells(&grid), ["#", " "]);
}

#[test]
fn check_weights_finds_unweighted_symbols() {
    let symmap = SymbolMap::new();
    assert!(Grid::new(4, 4).check_weights(&symmap));
    let grid = Grid::from_tiles(2, 1, tiles(&["#", " x"])).unwrap();
    assert!(!grid.check_weights(&symmap));
}

#[test]
fn collapse_same_seed_same_map() {
    let symmap = SymbolMap::new();
    for (width, height) in [(5, 5), (20, 10), (50, 50)] {
        let mut first = Grid::new(width, height);
        let mut second = Grid::new(width, height);
        assert_eq!(
            first.collapse(42, &symmap),
            second.collapse(42, &symmap)
        );
        assert_eq!(states(&first), states(&second));
        assert_eq!(cells(&first), cells(&second));
    }
}

#[test]
fn collapse_other_seed_other_map() {
    let symmap = SymbolMap::new();
    let mut maps = Vec::new();
    for seed in 0..8u64 {
        let mut grid = Grid::new(30, 10);
        assert_eq!(grid.collapse(seed, &symmap), Ok(()));
        maps.push(cells(&grid));
    }
    assert!(maps.iter().any(|m| *m != maps[0]));
}

#[test]
fn collapse_solves_grids_up_to_fifty_by_fifty() {
    let symmap = SymbolMap::new();
    for (width, height) in [(1, 1), (2, 1), (1, 2), (3, 3), (10, 10), (80, 10), (50, 50)] {
        for seed in [0u64, 1, 42, 2024] {
            let mut grid = Grid::new(width, height);
            assert!(grid.check_weights(&symmap));
            assert_eq!(grid.collapse(seed, &symmap), Ok(()));
            assert_eq!(grid.most_constrained(), None);
            assert_eq!(grid.find_min(), Ok(None));
            for i in 0..width * height {
                let tile = grid.tile(i).unwrap();
                assert!(tile.is_set());
                assert!(matches!(tile.state(), CellState::Solved(_)));
            }
        }
    }
}

#[test]
fn collapse_only_narrows_cells() {
    let symmap = SymbolMap::new();
    let before = cells(&Grid::new(12, 7));
    let mut grid = Grid::new(12, 7);
    assert_eq!(grid.collapse(5, &symmap), Ok(()));
    let after = cells(&grid);
    for (old, new) in before.iter().zip(after.iter()) {
        assert!(old.contains(new.as_str()));
    }
}

#[test]
fn collapsed_map_obeys_the_rules() {
    let symmap = SymbolMap::new();
    for seed in 0..20u64 {
        let mut grid = Grid::new(40, 12);
        assert_eq!(grid.collapse(seed, &symmap), Ok(()));
        let map = cells(&grid);
        for i in 0..map.len() {
            let symbol = map[i].chars().next().unwrap();
            for (n, dir) in grid.neighbors(i) {
                let allowed = symmap.get(symbol, &dir).unwrap();
                assert!(
                    allowed.contains(map[n].as_str()),
                    "seed {} cell {} {:?} neighbour {} {:?} {:?}",
                    seed,
                    i,
                    symbol,
                    n,
                    map[n],
                    dir
                );
            }
        }
    }
}

#[test]
fn border_cells_hold_what_every_border_allows() {
    for (width, height) in [(1, 1), (1, 4), (4, 1), (2, 2), (3, 5), (6, 4)] {
        let grid = Grid::new(width, height);
        for i in 0..width * height {
            let row = i / width;
            let col = i % width;
            let mut expected = String::new();
            for symbol in SymbolMap::ALLPIECES.chars() {
                let allowed = (row != 0 || SymbolMap::TOP_EDGE.contains(symbol))
                    && (row != height - 1 || SymbolMap::BOTTOM_EDGE.contains(symbol))
                    && (col != 0 || SymbolMap::LEFT_EDGE.contains(symbol))
                    && (col != width - 1 || SymbolMap::RIGHT_EDGE.contains(symbol));
                if allowed {
                    expected.push(symbol);
                }
            }
            assert_eq!(grid.tile(i).unwrap().value, expected);
        }
    }
}

#[test]
fn collapsed_border_cells_stay_within_their_masks() {
    let symmap = SymbolMap::new();
    for (width, height) in [(1, 1), (1, 6), (7, 1), (9, 5)] {
        for seed in 0..6u64 {
            let mut grid = Grid::new(width, height);
            let before = cells(&grid);
            assert_eq!(grid.collapse(seed, &symmap), Ok(()));
            let after = cells(&grid);
            for i in 0..width * height {
                assert!(before[i].contains(after[i].as_str()));
                let row = i / width;
                let col = i % width;
                if row == 0 {
                    assert!(SymbolMap::TOP_EDGE.contains(after[i].as_str()));
                }
                if row == height - 1 {
                    assert!(SymbolMap::BOTTOM_EDGE.contains(after[i].as_str()));
                }
                if col == 0 {
                    assert!(SymbolMap::LEFT_EDGE.contains(after[i].as_str()));
                }
                if col == width - 1 {
                    assert!(SymbolMap::RIGHT_EDGE.contains(after[i].as_str()));
                }
            }
        }
    }
}
