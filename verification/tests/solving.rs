//! Tests for the grid, the propagation pass and the solver.

use wave_collapse::WfcError;
use wave_collapse::grid::{GridCell, init_grid, update_grid};
use wave_collapse::rng::RandomSource;
use wave_collapse::solver::{collapse_lowest_entropy, get_random_tile, solve};
use wave_collapse::tile::{Tile, analyze_catalog, build_catalog};

fn tile(sig: Vec<u8>) -> Tile {
    Tile::from(sig).expect("signature within the edge alphabet")
}

/// The demo catalog: a blank tile plus a T-junction and its three rotations.
fn demo_catalog() -> Vec<Tile> {
    let up = tile(vec![1, 1, 0, 1]);
    let catalog = vec![
        tile(vec![0, 0, 0, 0]),
        up.get_rotated90(),
        up.get_rotated180(),
        up.get_rotated270(),
        up,
    ];
    analyze_catalog(&catalog)
}

/// Checks that two grid-adjacent collapsed cells obey the matching rule.
fn assert_adjacent_ok(tiles: &[Tile], grid: &[GridCell], width: usize) {
    for (i, cell) in grid.iter().enumerate() {
        assert!(cell.collapsed);
        assert_eq!(cell.options.len(), 1);
        let t = &tiles[cell.options[0]].connections;
        if i % width + 1 < width {
            // a neighbor to the right: this tile's right edge (3) must equal
            // the neighbor's left edge (1)
            let u = &tiles[grid[i + 1].options[0]].connections;
            assert_eq!(t[3], u[1], "cells {} and {}", i, i + 1);
        }
        if i + width < grid.len() {
            // a neighbor below: this tile's down edge (2) must equal the
            // neighbor's up edge (0)
            let u = &tiles[grid[i + width].options[0]].connections;
            assert_eq!(t[2], u[0], "cells {} and {}", i, i + width);
        }
    }
}

#[test]
fn gridcell_new_holds_every_option() {
    let cell = GridCell::new(7, 5);
    assert!(!cell.collapsed);
    assert_eq!(cell.id, 7);
    assert_eq!(cell.options, vec![0, 1, 2, 3, 4]);
}

#[test]
fn init_grid_is_fresh() {
    let grid = init_grid(3, 2, 4);
    assert_eq!(grid.len(), 6);
    for (i, cell) in grid.iter().enumerate() {
        assert!(!cell.collapsed);
        assert_eq!(cell.id, i);
        assert_eq!(cell.options, vec![0, 1, 2, 3]);
    }
}

#[test]
fn get_random_tile_keeps_one_candidate() {
    let mut rng = RandomSource::from_seed(11);
    for _ in 0..50usize {
        let mut options: Vec<usize> = vec![5, 6, 7];
        get_random_tile(&mut options, &mut rng);
        assert_eq!(options.len(), 1);
        assert!([5usize, 6, 7].contains(&options[0]));
    }
}

#[test]
fn propagation_prunes_against_fixed_neighbor() {
    // catalog: 0 = all-blank, 1 = all-path; a 2x1 grid with the left cell
    // fixed to the all-path tile leaves only the all-path tile next to it
    let catalog = analyze_catalog(&vec![tile(vec![0, 0, 0, 0]), tile(vec![1, 1, 1, 1])]);
    let mut grid = init_grid(2, 1, 2);
    grid[0].collapsed = true;
    grid[0].options = vec![1];
    update_grid(&mut grid, &catalog, 2, 1);
    assert!(grid[0].collapsed);
    assert_eq!(grid[0].options, vec![1], "collapsed cells are untouched");
    assert!(!grid[1].collapsed);
    assert_eq!(grid[1].options, vec![1], "only the matching tile survives");
}

#[test]
fn collapse_reports_no_uncollapsed_cells() {
    let mut rng = RandomSource::from_seed(0);
    let mut grid = vec![GridCell { collapsed: true, id: 0, options: vec![0] }];
    let r = collapse_lowest_entropy(&mut grid, &mut rng);
    assert_eq!(r, Err(WfcError::NoUncollapsedCells));
}

#[test]
fn collapse_reports_contradiction() {
    let mut rng = RandomSource::from_seed(0);
    let mut grid = vec![GridCell { collapsed: false, id: 0, options: Vec::new() }];
    let r = collapse_lowest_entropy(&mut grid, &mut rng);
    assert_eq!(r, Err(WfcError::Contradiction(0)));
    assert!(!grid[0].collapsed, "a failed collapse leaves the grid untouched");
}

#[test]
fn collapse_picks_lowest_entropy_cell() {
    let mut rng = RandomSource::from_seed(3);
    let mut grid = vec![
        GridCell { collapsed: false, id: 0, options: vec![0, 1, 2] },
        GridCell { collapsed: false, id: 1, options: vec![2] },
        GridCell { collapsed: false, id: 2, options: vec![0, 1] },
    ];
    let r = collapse_lowest_entropy(&mut grid, &mut rng);
    assert_eq!(r, Ok(()));
    assert!(grid[1].collapsed, "the single-candidate cell is the only minimum");
    assert_eq!(grid[1].options, vec![2]);
    assert!(!grid[0].collapsed);
    assert!(!grid[2].collapsed);
}

#[test]
fn solve_rejects_empty_grid() {
    let catalog = demo_catalog();
    let mut rng = RandomSource::from_seed(1);
    assert!(matches!(solve(0, 4, &catalog, &mut rng), Err(WfcError::EmptyGrid)));
    assert!(matches!(solve(4, 0, &catalog, &mut rng), Err(WfcError::EmptyGrid)));
}

#[test]
fn solve_collapses_every_cell() {
    let catalog = demo_catalog();
    let mut rng = RandomSource::from_seed(2024);
    let grid = solve(3, 3, &catalog, &mut rng).expect("the demo catalog always has the blank way out");
    assert_eq!(grid.len(), 9);
    for (i, cell) in grid.iter().enumerate() {
        assert!(cell.collapsed);
        assert_eq!(cell.id, i);
        assert_eq!(cell.options.len(), 1);
        assert!(cell.options[0] < catalog.len());
    }
}

#[test]
fn two_by_two_path_catalog_scenario() {
    // a blank tile and a corner-path tile with its three rotations: five
    // tiles; a 2x2 solve must collapse fully and every adjacent pair must
    // obey the matching rule
    let path = tile(vec![1, 1, 0, 0]);
    let catalog = vec![
        tile(vec![0, 0, 0, 0]),
        path.get_rotated90(),
        path.get_rotated180(),
        path.get_rotated270(),
        path,
    ];
    let analyzed = analyze_catalog(&catalog);
    for seed in 0..20u64 {
        let mut rng = RandomSource::from_seed(seed);
        match solve(2, 2, &analyzed, &mut rng) {
            Ok(grid) => {
                assert_eq!(grid.len(), 4);
                assert_adjacent_ok(&analyzed, &grid, 2);
            },
            Err(e) => {
                assert!(matches!(e, WfcError::Contradiction(_)));
            },
        }
    }
}

#[test]
fn impossible_tile_yields_contradiction() {
    // a single tile that matches itself on no side: up/left blank but
    // down/right path, so any two adjacent placements disagree
    let catalog = analyze_catalog(&vec![tile(vec![0, 0, 1, 1])]);
    let mut rng = RandomSource::from_seed(9);
    let r = solve(2, 1, &catalog, &mut rng);
    assert!(matches!(r, Err(WfcError::Contradiction(_))));
    let r = solve(1, 2, &catalog, &mut rng);
    assert!(matches!(r, Err(WfcError::Contradiction(_))));
}

#[test]
fn solve_deterministic_same_seed() {
    let catalog = demo_catalog();
    let mut rng1 = RandomSource::from_seed(77);
    let mut rng2 = RandomSource::from_seed(77);
    let a = solve(4, 4, &catalog, &mut rng1).expect("solvable catalog");
    let b = solve(4, 4, &catalog, &mut rng2).expect("solvable catalog");
    assert_eq!(a.len(), b.len());
    for (x, y) in a.iter().zip(b.iter()) {
        assert_eq!(x.collapsed, y.collapsed);
        assert_eq!(x.id, y.id);
        assert_eq!(x.options, y.options);
    }
}

#[test]
fn tie_break_roughly_uniform() {
    // two cells tied at the minimum entropy: over many rounds each side
    // should be picked a comparable number of times
    let mut rng = RandomSource::from_seed(123);
    let mut first: usize = 0;
    let rounds: usize = 1000;
    for _ in 0..rounds {
        let mut grid = vec![
            GridCell { collapsed: false, id: 0, options: vec![0, 1] },
            GridCell { collapsed: false, id: 1, options: vec![0, 1] },
        ];
        collapse_lowest_entropy(&mut grid, &mut rng).unwrap();
        if grid[0].collapsed {
            first += 1;
        } else {
            assert!(grid[1].collapsed);
        }
    }
    assert!(first > 350 && first < 650, "picked the first cell {first} of {rounds} times");
}
