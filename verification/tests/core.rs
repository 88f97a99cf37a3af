//! Tests of the adjacency-constrained tiling core: directions, rule sets,
//! the domain grid, and the generation controller.

use wavetile::generate::{gen_grid, generate_counted, get_grid_size, GenError};
use wavetile::grid::Grid;
use wavetile::random::RandomSource;
use wavetile::rules::{with_reverse, RuleSet};
use wavetile::side::{opposite_side, Side};

#[test]
fn opposite_sides() {
    assert_eq!(opposite_side(Side::Up), Side::Down);
    assert_eq!(opposite_side(Side::Down), Side::Up);
    assert_eq!(opposite_side(Side::Right), Side::Left);
    assert_eq!(opposite_side(Side::Left), Side::Right);
}

#[test]
fn opposite_is_involutive() {
    for side in [Side::Up, Side::Right, Side::Down, Side::Left] {
        assert_eq!(opposite_side(opposite_side(side)), side);
    }
}

#[test]
fn side_indices() {
    assert_eq!(Side::Up.side_index(), 1);
    assert_eq!(Side::Right.side_index(), 2);
    assert_eq!(Side::Down.side_index(), 3);
    assert_eq!(Side::Left.side_index(), 4);
}

#[test]
fn with_reverse_adds_mirrors() {
    let links = vec![(0usize, Side::Right, 1usize), (2, Side::Up, 2)];
    let doubled = with_reverse(links);
    assert_eq!(
        doubled,
        vec![
            (0, Side::Right, 1),
            (1, Side::Left, 0),
            (2, Side::Up, 2),
            (2, Side::Down, 2),
        ]
    );
}

#[test]
fn with_reverse_empty() {
    let doubled = with_reverse(Vec::new());
    assert!(doubled.is_empty());
}

#[test]
fn mirror_rule_present() {
    // every rule accepted by the builder has its mirror accepted too
    let rs = RuleSet::new(vec![(0usize, Side::Right, 1usize)]);
    assert!(rs.compatible(0, Side::Right, 1));
    assert!(rs.compatible(1, Side::Left, 0));
    assert!(!rs.compatible(0, Side::Left, 1));
    assert!(!rs.compatible(1, Side::Right, 0));
    assert!(!rs.compatible(0, Side::Up, 1));
    // an unrecognized pair is simply incompatible
    assert!(!rs.compatible(7, Side::Up, 9));
}

#[test]
fn grid_new_rejects_empty() {
    assert!(Grid::new(0, 5, 1).is_err());
    assert!(Grid::new(5, 0, 1).is_err());
    assert!(Grid::new(2, 2, 0).is_err());
    assert!(Grid::new(2, 2, 1).is_ok());
}

#[test]
fn neighbour_counts() {
    // corners have 2 neighbours, edges 3, interior cells 4
    let g = Grid::new(3, 3, 1).unwrap();
    assert_eq!(g.neighbours((0, 0)).len(), 2);
    assert_eq!(g.neighbours((1, 0)).len(), 3);
    assert_eq!(g.neighbours((1, 1)).len(), 4);
    assert_eq!(g.neighbours((2, 2)).len(), 2);
    assert_eq!(g.neighbours((2, 1)).len(), 3);
}

#[test]
fn neighbour_entries() {
    let g = Grid::new(3, 3, 1).unwrap();
    assert_eq!(
        g.neighbours((0, 0)),
        vec![((1, 0), Side::Right), ((0, 1), Side::Down)]
    );
    assert_eq!(
        g.neighbours((1, 1)),
        vec![
            ((0, 1), Side::Left),
            ((2, 1), Side::Right),
            ((1, 0), Side::Up),
            ((1, 2), Side::Down),
        ]
    );
}

#[test]
fn restrict_shrinks_and_signals() {
    let mut g = Grid::new(2, 1, 2).unwrap();
    assert_eq!(g.candidates((0, 0)), vec![0, 1]);
    let (shrank, emptied) = g.restrict((0, 0), 1);
    assert!(shrank);
    assert!(!emptied);
    assert_eq!(g.candidates((0, 0)), vec![0]);
    // removing an already-excluded candidate is a no-op: no signal fires
    let (shrank, emptied) = g.restrict((0, 0), 1);
    assert!(!shrank);
    assert!(!emptied);
    assert_eq!(g.candidates((0, 0)), vec![0]);
    // emptying the set raises the contradiction signal
    let (shrank, emptied) = g.restrict((0, 0), 0);
    assert!(shrank);
    assert!(emptied);
    assert_eq!(g.candidates((0, 0)), Vec::<usize>::new());
    // the other cell is untouched
    assert_eq!(g.candidates((1, 0)), vec![0, 1]);
}

#[test]
fn resolve_and_get() {
    let mut g = Grid::new(2, 2, 3).unwrap();
    assert_eq!(g.get((1, 1)), None);
    g.resolve((1, 1), 2);
    assert_eq!(g.get((1, 1)), Some(2));
    assert_eq!(g.get((0, 0)), None);
}

#[test]
fn find_unresolved_scans_row_major() {
    let mut g = Grid::new(2, 2, 1).unwrap();
    assert_eq!(g.find_unresolved(), Some((0, 0)));
    g.resolve((0, 0), 0);
    assert_eq!(g.find_unresolved(), Some((1, 0)));
    g.resolve((1, 0), 0);
    g.resolve((0, 1), 0);
    g.resolve((1, 1), 0);
    assert_eq!(g.find_unresolved(), None);
}

fn all_directions_self(tile: usize) -> Vec<(usize, Side, usize)> {
    vec![
        (tile, Side::Up, tile),
        (tile, Side::Right, tile),
        (tile, Side::Down, tile),
        (tile, Side::Left, tile),
    ]
}

#[test]
fn single_tile_first_attempt() {
    // a one-tile catalog that accepts itself everywhere terminates on the
    // first attempt with every cell holding that tile
    let rs = RuleSet::new(all_directions_self(0));
    let mut rng = RandomSource::new(42);
    let (grid, attempts) = generate_counted(&mut rng, (4, 5), 1, &rs, 1).unwrap();
    assert_eq!(attempts, 1);
    for y in 0..5 {
        for x in 0..4 {
            assert_eq!(grid.get((x, y)), Some(0));
        }
    }
}

#[test]
fn contradiction_retries_until_forced_pair() {
    // catalog {A, B}; only rule: A right of A (plus mirror); on a 2x1 grid
    // every attempt assigning B must contradict and restart, and the final
    // output is always [A, A]
    let rs = RuleSet::new(vec![(0usize, Side::Right, 0usize)]);
    let mut saw_retry = false;
    for seed in 0..20 {
        let mut rng = RandomSource::new(seed);
        let (grid, attempts) = generate_counted(&mut rng, (2, 1), 2, &rs, 10_000).unwrap();
        assert_eq!(grid.get((0, 0)), Some(0));
        assert_eq!(grid.get((1, 0)), Some(0));
        if attempts >= 2 {
            saw_retry = true;
        }
    }
    assert!(saw_retry);
}

#[test]
fn trivial_single_cell_always_satisfiable() {
    // a 1x1 grid needs no adjacency at all, so even a rule-less pair works
    let rs = RuleSet::new(Vec::new());
    let mut rng = RandomSource::new(5);
    let (grid, _) = generate_counted(&mut rng, (1, 1), 2, &rs, 10_000).unwrap();
    assert!(grid.get((0, 0)).is_some());
}

fn demo_rules() -> RuleSet {
    RuleSet::new(vec![
        // first tile with itself
        (0, Side::Up, 0),
        (0, Side::Right, 0),
        // first tile with the neighbours
        (0, Side::Up, 2),
        (0, Side::Right, 1),
        (0, Side::Down, 2),
        (0, Side::Left, 1),
        // second tile
        (1, Side::Up, 1),
        (1, Side::Up, 3),
        (1, Side::Down, 1),
        (1, Side::Down, 3),
        // third tile
        (2, Side::Right, 2),
        (2, Side::Right, 3),
        (2, Side::Left, 2),
        (2, Side::Left, 3),
        // fourth tile
        (3, Side::Left, 3),
    ])
}

#[test]
fn generated_grid_is_valid() {
    // every coordinate is resolved, and every adjacent pair satisfies the
    // compatibility relation
    let rs = demo_rules();
    let mut rng = RandomSource::new(7);
    let (w, h) = (5usize, 4usize);
    let grid = match gen_grid(&mut rng, (w, h), 4, &rs, 100_000) {
        Ok(g) => g,
        Err(e) => panic!("generation failed: {:?}", e),
    };
    for y in 0..h {
        for x in 0..w {
            let tile = grid.get((x, y)).expect("cell left unresolved");
            assert!(tile < 4);
            for (p, side) in grid.neighbours((x, y)) {
                let other = grid.get(p).expect("cell left unresolved");
                assert!(rs.compatible(tile, side, other));
                assert!(rs.compatible(other, opposite_side(side), tile));
            }
        }
    }
}

#[test]
fn same_seed_same_grid() {
    // two runs with identical size, rules, catalog and seed produce
    // identical tile assignments at every coordinate
    let rs = demo_rules();
    let mut rng1 = RandomSource::new(123);
    let mut rng2 = RandomSource::new(123);
    let g1 = gen_grid(&mut rng1, (6, 4), 4, &rs, 100_000).unwrap();
    let g2 = gen_grid(&mut rng2, (6, 4), 4, &rs, 100_000).unwrap();
    for y in 0..4 {
        for x in 0..6 {
            assert_eq!(g1.get((x, y)), g2.get((x, y)));
        }
    }
}

#[test]
fn empty_config_is_rejected() {
    let rs = RuleSet::new(all_directions_self(0));
    let mut rng = RandomSource::new(1);
    assert_eq!(
        gen_grid(&mut rng, (0, 3), 1, &rs, 10).unwrap_err(),
        GenError::EmptyConfig
    );
    assert_eq!(
        gen_grid(&mut rng, (3, 0), 1, &rs, 10).unwrap_err(),
        GenError::EmptyConfig
    );
    assert_eq!(
        gen_grid(&mut rng, (3, 3), 0, &rs, 10).unwrap_err(),
        GenError::EmptyConfig
    );
}

#[test]
fn budget_exhaustion_is_reported() {
    // an unsatisfiable configuration: two cells but no rule at all
    let rs = RuleSet::new(Vec::new());
    let mut rng = RandomSource::new(3);
    assert_eq!(
        gen_grid(&mut rng, (2, 1), 2, &rs, 50).unwrap_err(),
        GenError::RetriesExhausted
    );
}

#[test]
fn grid_size_covers_window() {
    assert_eq!(get_grid_size(800, 600, 64, 64), (13, 10));
    assert_eq!(get_grid_size(64, 64, 64, 64), (2, 2));
    assert_eq!(get_grid_size(0, 0, 10, 10), (1, 1));
}
