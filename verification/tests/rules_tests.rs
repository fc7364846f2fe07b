use rand::SeedableRng;
use rand_chacha::ChaCha8Rng;
use wfc_terrain::{Direction, EmptyDomain, SymbolMap};

#[test]
fn table_holds_the_terrain_rules() {
    let symmap = SymbolMap::new();
    let expected = [
        (' ', " /\\#", " /_", " /\\_", " \\_"),
        ('/', " \\", "#\\", " \\_#", " _"),
        ('\\', " /", " _", " /_#", "/#"),
        ('_', " /\\#", " /_", "#", " \\_"),
        ('#', "/\\_#", "#\\", " _#", "/#"),
    ];
    for (c, top, right, bottom, left) in expected {
        assert_eq!(symmap.get(c, &Direction::Top), Some(top));
        assert_eq!(symmap.get(c, &Direction::Right), Some(right));
        assert_eq!(symmap.get(c, &Direction::Bottom), Some(bottom));
        assert_eq!(symmap.get(c, &Direction::Left), Some(left));
    }
}

#[test]
fn table_knows_no_other_symbol() {
    let symmap = SymbolMap::new();
    for c in ['x', '0', '\n', '\u{e9}', '-'] {
        assert_eq!(symmap.get(c, &Direction::Top), None);
        assert_eq!(symmap.get(c, &Direction::Left), None);
        assert_eq!(symmap.weight_of(c), 0);
    }
}

#[test]
fn alphabets_and_edges() {
    assert_eq!(SymbolMap::ALLPIECES, " /\\_#");
    assert_eq!(SymbolMap::HILLPIECES, "/\\_#");
    assert_eq!(SymbolMap::edge_constraint(&Direction::Top), " _");
    assert_eq!(SymbolMap::edge_constraint(&Direction::Right), " \\_#");
    assert_eq!(SymbolMap::edge_constraint(&Direction::Bottom), " /\\#");
    assert_eq!(SymbolMap::edge_constraint(&Direction::Left), " /_#");
    assert_eq!(SymbolMap::edge_constraint(&Direction::Top), SymbolMap::TOP_EDGE);
    assert_eq!(SymbolMap::edge_constraint(&Direction::Right), SymbolMap::RIGHT_EDGE);
    assert_eq!(SymbolMap::edge_constraint(&Direction::Bottom), SymbolMap::BOTTOM_EDGE);
    assert_eq!(SymbolMap::edge_constraint(&Direction::Left), SymbolMap::LEFT_EDGE);
}

#[test]
fn weights_of_the_terrain() {
    let symmap = SymbolMap::new();
    assert_eq!(symmap.weight_of(' '), 1000);
    assert_eq!(symmap.weight_of('/'), 10);
    assert_eq!(symmap.weight_of('\\'), 10);
    assert_eq!(symmap.weight_of('_'), 50);
    assert_eq!(symmap.weight_of('#'), 100);
}

#[test]
fn total_weight_sums_every_occurrence() {
    let symmap = SymbolMap::new();
    assert_eq!(symmap.string_total_weight(""), 0);
    assert_eq!(symmap.string_total_weight("#"), 100);
    assert_eq!(symmap.string_total_weight(SymbolMap::ALLPIECES), 1170);
    assert_eq!(symmap.string_total_weight(SymbolMap::HILLPIECES), 170);
    assert_eq!(symmap.string_total_weight("##_"), 250);
}

#[test]
fn check_weights_wants_every_symbol_weighted() {
    let symmap = SymbolMap::new();
    assert!(symmap.check_weights(""));
    assert!(symmap.check_weights(SymbolMap::ALLPIECES));
    assert!(symmap.check_weights("##"));
    assert!(!symmap.check_weights("x"));
    assert!(!symmap.check_weights(" /x"));
}

#[test]
fn pick_walks_the_shares_in_order() {
    let symmap = SymbolMap::new();
    let all = SymbolMap::ALLPIECES;
    let expected = [
        (0, ' '),
        (999, ' '),
        (1000, '/'),
        (1009, '/'),
        (1010, '\\'),
        (1019, '\\'),
        (1020, '_'),
        (1069, '_'),
        (1070, '#'),
        (1169, '#'),
    ];
    for (i, symbol) in expected {
        assert_eq!(symmap.pick_weighted_index(all, i), symbol);
    }
    assert_eq!(symmap.pick_weighted_index("#_", 0), '#');
    assert_eq!(symmap.pick_weighted_index("#_", 99), '#');
    assert_eq!(symmap.pick_weighted_index("#_", 100), '_');
    assert_eq!(symmap.pick_weighted_index("#_", 149), '_');
    assert_eq!(symmap.pick_weighted_index("__", 50), '_');
}

#[test]
fn pick_from_one_symbol_is_that_symbol() {
    let symmap = SymbolMap::new();
    for i in [0, 1, 50, 99] {
        assert_eq!(symmap.pick_weighted_index("#", i), '#');
    }
    for symbol in [" ", "/", "\\", "_", "#"] {
        for seed in 0..25u64 {
            let mut rng = ChaCha8Rng::seed_from_u64(seed);
            for _ in 0..4 {
                assert_eq!(symmap.rng_pick(symbol, &mut rng), Ok(symbol.to_string()));
            }
        }
    }
}

#[test]
fn rng_pick_from_nothing_is_an_error() {
    let symmap = SymbolMap::new();
    let mut rng = ChaCha8Rng::seed_from_u64(7);
    assert_eq!(symmap.rng_pick("", &mut rng), Err(EmptyDomain));
}

#[test]
fn rng_pick_takes_a_symbol_of_the_domain() {
    let symmap = SymbolMap::new();
    for domain in [" /\\_#", "/\\", "_#", " _", "#\\/"] {
        let mut seen = String::new();
        for seed in 0..200u64 {
            let mut rng = ChaCha8Rng::seed_from_u64(seed);
            let picked = symmap.rng_pick(domain, &mut rng).unwrap();
            assert_eq!(picked.chars().count(), 1);
            assert!(domain.contains(&picked));
            if !seen.contains(&picked) {
                seen.push_str(&picked);
            }
        }
        assert!(seen.chars().count() >= 2);
    }
}

#[test]
fn rng_pick_follows_the_generator() {
    let symmap = SymbolMap::new();
    let mut first = ChaCha8Rng::seed_from_u64(42);
    let mut second = ChaCha8Rng::seed_from_u64(42);
    for _ in 0..50 {
        assert_eq!(
            symmap.rng_pick("/\\_#", &mut first),
            symmap.rng_pick("/\\_#", &mut second)
        );
    }
}
