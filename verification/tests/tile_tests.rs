use wfc_terrain::{CellState, Contradiction, Direction, SymbolMap, Tile};

#[test]
fn tile_pruning() {
    let mut t = Tile::default();
    assert_eq!(t.prune(SymbolMap::HILLPIECES), Ok(()));
    assert_eq!(t.value, SymbolMap::HILLPIECES.to_string());
    let symmap = SymbolMap::new();
    t.value = "#".to_string();
    let mut t_top = Tile::default();
    assert_eq!(
        t_top.prune_with_other_in_dir(&t, &Direction::Top, &symmap),
        Ok(true)
    );
    assert_eq!(t_top.value, SymbolMap::HILLPIECES.to_string())
}

#[test]
fn tile_pruning_with_other() {
    let symmap = SymbolMap::new();
    let t = Tile::new("#".to_string());
    let mut t_top = Tile::default();
    assert_eq!(
        t_top.prune_with_other_in_dir(&t, &Direction::Top, &symmap),
        Ok(true)
    );
    assert_eq!(t_top.value, SymbolMap::HILLPIECES.to_string())
}

#[test]
fn default_tile_holds_every_symbol() {
    let t = Tile::default();
    assert_eq!(t.value, " /\\_#");
    assert_eq!(t.len(), 5);
    assert!(!t.is_set());
}

#[test]
fn prune_keeps_the_order_of_the_domain() {
    let mut t = Tile::default();
    assert_eq!(t.prune("#_ "), Ok(()));
    assert_eq!(t.value, " _#");
}

#[test]
fn prune_counts_a_mask_symbol_once() {
    let mut t = Tile::new("a/b/".to_string());
    assert_eq!(t.prune("//"), Ok(()));
    assert_eq!(t.value, "//");
}

#[test]
fn prune_twice_is_prune_once() {
    for mask in [" ", " /", "#_", "/\\_#", " /\\_#", "x#y"] {
        let mut once = Tile::default();
        assert_eq!(once.prune(mask), Ok(()));
        let mut twice = Tile::default();
        assert_eq!(twice.prune(mask), Ok(()));
        assert_eq!(twice.prune(mask), Ok(()));
        assert_eq!(once.value, twice.value);
    }
}

#[test]
fn prune_reports_contradiction_and_keeps_the_domain() {
    let mut t = Tile::new(" /".to_string());
    assert_eq!(t.prune("_#"), Err(Contradiction));
    assert_eq!(t.value, " /");
    assert_eq!(t.prune(""), Err(Contradiction));
    assert_eq!(t.value, " /");
}

#[test]
fn disjoint_masks_end_in_contradiction() {
    let mut t = Tile::default();
    assert_eq!(t.prune(" /"), Ok(()));
    assert_eq!(t.value, " /");
    assert_eq!(t.prune("\\_#"), Err(Contradiction));
    assert_eq!(t.value, " /");
    assert!(!t.value.is_empty());
}

#[test]
fn pruning_an_empty_tile_is_a_contradiction() {
    let mut t = Tile::new(String::new());
    assert_eq!(t.prune(" /\\_#"), Err(Contradiction));
    assert_eq!(t.value, "");
}

#[test]
fn pruned_opts_leaves_the_tile_alone() {
    let t = Tile::default();
    assert_eq!(t.pruned_opts("#\\"), "\\#");
    assert_eq!(t.pruned_opts("xyz"), "");
    assert_eq!(t.value, " /\\_#");
}

#[test]
fn prune_with_other_orders_by_first_allowance() {
    let symmap = SymbolMap::new();
    let other = Tile::new("/ ".to_string());
    let mut t = Tile::default();
    assert_eq!(
        t.prune_with_other_in_dir(&other, &Direction::Top, &symmap),
        Ok(true)
    );
    assert_eq!(t.value, " \\/#");
}

#[test]
fn prune_with_other_drops_repetitions() {
    let symmap = SymbolMap::new();
    let other = Tile::new("##".to_string());
    let mut t = Tile::default();
    assert_eq!(
        t.prune_with_other_in_dir(&other, &Direction::Top, &symmap),
        Ok(true)
    );
    assert_eq!(t.value, "/\\_#");
    let other = Tile::new("_ ".to_string());
    let mut t = Tile::default();
    assert_eq!(
        t.prune_with_other_in_dir(&other, &Direction::Right, &symmap),
        Ok(true)
    );
    assert_eq!(t.value, " /_");
}

#[test]
fn prune_with_other_tells_when_nothing_changed() {
    let symmap = SymbolMap::new();
    let other = Tile::new("#".to_string());
    let mut t = Tile::new("\\#".to_string());
    assert_eq!(
        t.prune_with_other_in_dir(&other, &Direction::Right, &symmap),
        Ok(false)
    );
    assert_eq!(t.value, "\\#");
}

#[test]
fn prune_with_other_in_each_direction() {
    let symmap = SymbolMap::new();
    let other = Tile::new("_".to_string());
    let expected = [
        (Direction::Top, " /\\#"),
        (Direction::Right, " /_"),
        (Direction::Bottom, "#"),
        (Direction::Left, " \\_"),
    ];
    for (dir, left) in expected {
        let mut t = Tile::default();
        assert_eq!(t.prune_with_other_in_dir(&other, &dir, &symmap), Ok(true));
        assert_eq!(t.value, left);
    }
}

#[test]
fn prune_with_other_unknown_symbol_allows_nothing() {
    let symmap = SymbolMap::new();
    let other = Tile::new("x".to_string());
    let mut t = Tile::default();
    assert_eq!(
        t.prune_with_other_in_dir(&other, &Direction::Top, &symmap),
        Err(Contradiction)
    );
    assert_eq!(t.value, " /\\_#");
    let other = Tile::new("x#".to_string());
    assert_eq!(
        t.prune_with_other_in_dir(&other, &Direction::Top, &symmap),
        Ok(true)
    );
    assert_eq!(t.value, "/\\_#");
}

#[test]
fn prune_with_other_contradiction_keeps_the_domain() {
    let symmap = SymbolMap::new();
    let other = Tile::new("#".to_string());
    let mut t = Tile::new(" _".to_string());
    assert_eq!(
        t.prune_with_other_in_dir(&other, &Direction::Right, &symmap),
        Err(Contradiction)
    );
    assert_eq!(t.value, " _");
    let empty = Tile::new(String::new());
    let mut t = Tile::default();
    assert_eq!(
        t.prune_with_other_in_dir(&empty, &Direction::Left, &symmap),
        Err(Contradiction)
    );
    assert_eq!(t.value, " /\\_#");
}

#[test]
fn is_set_counts_symbols() {
    assert!(Tile::new("#".to_string()).is_set());
    assert!(Tile::new("\u{e9}".to_string()).is_set());
    assert!(!Tile::new("#_".to_string()).is_set());
    assert!(!Tile::new(String::new()).is_set());
    assert_eq!(Tile::new("\u{e9}\u{e8}".to_string()).len(), 2);
}

#[test]
fn state_shows_symbol_or_count() {
    assert_eq!(Tile::new("#".to_string()).state(), CellState::Solved('#'));
    assert_eq!(Tile::default().state(), CellState::Open(5));
    assert_eq!(Tile::new(" /".to_string()).state(), CellState::Open(2));
    assert_eq!(Tile::new(String::new()).state(), CellState::Open(0));
}

#[test]
fn directions_face_each_other() {
    assert_eq!(Direction::Top.opposite(), Direction::Bottom);
    assert_eq!(Direction::Bottom.opposite(), Direction::Top);
    assert_eq!(Direction::Left.opposite(), Direction::Right);
    assert_eq!(Direction::Right.opposite(), Direction::Left);
    for d in [
        Direction::Top,
        Direction::Right,
        Direction::Bottom,
        Direction::Left,
    ] {
        assert_eq!(d.opposite().opposite(), d);
        assert_ne!(d.opposite(), d);
    }
    assert_eq!(Direction::COUNT, 4);
}
