use game_of_life::grid::{CellState, Grid, CLICK_RADIUS, GRID_SIZE};

fn grid_with(size: usize, live: &[(usize, usize)]) -> Grid {
    let mut g = Grid::new(size).unwrap();
    for &(x, y) in live {
        g.set(x, y, true);
    }
    g
}

fn live_cells(g: &Grid) -> Vec<(usize, usize)> {
    let mut out = Vec::new();
    for y in 0..g.size() {
        for x in 0..g.size() {
            if g.get(x, y) {
                out.push((x, y));
            }
        }
    }
    out
}

#[test]
fn fresh_grid_is_all_dead() {
    for n in [1usize, 5, 50] {
        let g = Grid::new(n).unwrap();
        assert_eq!(g.size(), n);
        for y in 0..n {
            for x in 0..n {
                assert!(!g.get(x, y));
                assert_eq!(g.classify(x, y), CellState::Dead);
            }
        }
    }
}

#[test]
fn zero_size_is_rejected() {
    assert!(Grid::new(0).is_none());
}

#[test]
fn oversized_grid_is_rejected() {
    assert!(Grid::new(usize::MAX).is_none());
}

#[test]
fn set_then_get() {
    let mut g = Grid::new(4).unwrap();
    g.set(3, 1, true);
    assert!(g.get(3, 1));
    assert!(!g.get(1, 3));
    g.set(3, 1, false);
    assert!(!g.get(3, 1));
}

#[test]
fn toggle_twice_restores_value() {
    let mut g = grid_with(5, &[(2, 2)]);
    g.toggle(2, 2);
    assert!(!g.get(2, 2));
    g.toggle(2, 2);
    assert!(g.get(2, 2));
    g.toggle(0, 4);
    assert!(g.get(0, 4));
    g.toggle(0, 4);
    assert!(!g.get(0, 4));
}

#[test]
fn toggle_leaves_previous_generation() {
    let mut g = grid_with(5, &[(1, 1), (2, 1), (1, 2), (2, 2)]);
    g.step();
    // previous and current are both the block now
    assert_eq!(g.classify(1, 1), CellState::Alive);
    g.toggle(1, 1);
    g.toggle(4, 4);
    assert_eq!(g.classify(1, 1), CellState::Died);
    assert_eq!(g.classify(4, 4), CellState::Born);
    g.toggle(1, 1);
    assert_eq!(g.classify(1, 1), CellState::Alive);
}

#[test]
fn lone_cell_dies() {
    let mut g = grid_with(5, &[(2, 2)]);
    assert_eq!(g.neighbors(2, 2), 0);
    g.step();
    assert!(!g.get(2, 2));
    assert!(live_cells(&g).is_empty());
}

#[test]
fn blinker_oscillates() {
    let mut g = grid_with(5, &[(1, 2), (2, 2), (3, 2)]);
    g.step();
    assert_eq!(live_cells(&g), vec![(2, 1), (2, 2), (2, 3)]);
    g.step();
    assert_eq!(live_cells(&g), vec![(1, 2), (2, 2), (3, 2)]);
}

#[test]
fn block_is_still_life() {
    let block = vec![(0, 0), (1, 0), (0, 1), (1, 1)];
    let mut g = grid_with(6, &block);
    for _ in 0..10 {
        g.step();
        assert_eq!(live_cells(&g), block);
    }
    let inner = vec![(2, 3), (3, 3), (2, 4), (3, 4)];
    let mut h = grid_with(6, &inner);
    for _ in 0..10 {
        h.step();
        assert_eq!(live_cells(&h), inner);
    }
}

#[test]
fn corner_cell_counts_no_off_grid_neighbors() {
    let g = grid_with(5, &[(0, 0)]);
    assert_eq!(g.neighbors(0, 0), 0);
    let h = grid_with(5, &[(4, 4)]);
    assert_eq!(h.neighbors(4, 4), 0);
}

#[test]
fn edges_do_not_wrap() {
    // live cells on the far column are not neighbours of the near column
    let g = grid_with(5, &[(4, 0), (4, 1), (4, 2)]);
    assert_eq!(g.neighbors(0, 1), 0);
    assert_eq!(g.neighbors(3, 1), 3);
}

#[test]
fn full_neighborhood_counts_eight() {
    let mut g = Grid::new(3).unwrap();
    for y in 0..3 {
        for x in 0..3 {
            g.set(x, y, true);
        }
    }
    assert_eq!(g.neighbors(1, 1), 8);
    assert_eq!(g.neighbors(0, 0), 3);
    assert_eq!(g.neighbors(1, 0), 5);
}

#[test]
fn birth_on_three_neighbors() {
    let mut g = grid_with(4, &[(0, 0), (1, 0), (0, 1)]);
    assert_eq!(g.neighbors(1, 1), 3);
    g.step();
    assert!(g.get(1, 1));
    assert_eq!(g.classify(1, 1), CellState::Born);
}

#[test]
fn overcrowded_cell_dies() {
    let mut g = grid_with(3, &[(1, 1), (0, 0), (1, 0), (2, 0), (0, 1)]);
    assert_eq!(g.neighbors(1, 1), 4);
    g.step();
    assert!(!g.get(1, 1));
    assert_eq!(g.classify(1, 1), CellState::Died);
}

#[test]
fn classification_follows_step() {
    let mut g = grid_with(5, &[(1, 2), (2, 2), (3, 2)]);
    let before: Vec<bool> = (0..25).map(|i| g.get(i % 5, i / 5)).collect();
    g.step();
    for i in 0..25 {
        let (x, y) = (i % 5, i / 5);
        let expected = match (before[i], g.get(x, y)) {
            (false, true) => CellState::Born,
            (true, false) => CellState::Died,
            (true, true) => CellState::Alive,
            (false, false) => CellState::Dead,
        };
        assert_eq!(g.classify(x, y), expected);
    }
    assert_eq!(g.classify(2, 1), CellState::Born);
    assert_eq!(g.classify(1, 2), CellState::Died);
    assert_eq!(g.classify(2, 2), CellState::Alive);
    assert_eq!(g.classify(0, 0), CellState::Dead);
}

#[test]
fn corner_click_toggles_nine_cells() {
    let mut g = Grid::new(GRID_SIZE).unwrap();
    g.toggle_square(0, 0, CLICK_RADIUS);
    let mut expected = Vec::new();
    for y in 0..3 {
        for x in 0..3 {
            expected.push((x, y));
        }
    }
    assert_eq!(live_cells(&g), expected);
    assert_eq!(live_cells(&g).len(), 9);
}

#[test]
fn click_in_grid_toggles_square() {
    let mut g = Grid::new(GRID_SIZE).unwrap();
    assert!(g.click(0, 0));
    assert_eq!(live_cells(&g).len(), 9);
    assert!(g.click(0, 0));
    assert!(live_cells(&g).is_empty());
    assert!(g.click(10, 20));
    let cells = live_cells(&g);
    assert_eq!(cells.len(), 25);
    assert!(cells.iter().all(|&(x, y)| (8..=12).contains(&x) && (18..=22).contains(&y)));
    assert!(g.click(49, 49));
    assert_eq!(live_cells(&g).len(), 34);
}

#[test]
fn click_outside_grid_changes_nothing() {
    let mut g = grid_with(GRID_SIZE, &[(0, 0)]);
    assert!(!g.click(-1, 0));
    assert!(!g.click(0, -3));
    assert!(!g.click(50, 10));
    assert!(!g.click(10, 50));
    assert_eq!(live_cells(&g), vec![(0, 0)]);
}

#[test]
fn square_toggle_flips_existing_cells() {
    let mut g = grid_with(5, &[(2, 2), (4, 4)]);
    g.toggle_square(2, 2, 1);
    assert!(!g.get(2, 2));
    assert!(g.get(1, 1));
    assert!(g.get(3, 3));
    assert!(g.get(4, 4));
    assert_eq!(live_cells(&g).len(), 9);
}

#[test]
fn square_toggle_with_huge_radius_covers_grid() {
    let mut g = Grid::new(4).unwrap();
    g.toggle_square(1, 2, usize::MAX);
    assert_eq!(live_cells(&g).len(), 16);
}

#[test]
fn square_toggle_radius_zero_flips_one_cell() {
    let mut g = Grid::new(4).unwrap();
    g.toggle_square(3, 0, 0);
    assert_eq!(live_cells(&g), vec![(3, 0)]);
}

#[test]
fn randomize_with_certain_odds() {
    let mut g = Grid::new(6).unwrap();
    g.randomize(5, 5);
    assert_eq!(live_cells(&g).len(), 36);
    // the previous generation is untouched by seeding
    assert_eq!(g.classify(3, 3), CellState::Born);
    g.randomize(0, 5);
    assert!(live_cells(&g).is_empty());
}

#[test]
fn randomize_keeps_previous_generation() {
    let mut g = Grid::new(8).unwrap();
    g.randomize(1, 5);
    for y in 0..8 {
        for x in 0..8 {
            let expected = if g.get(x, y) { CellState::Born } else { CellState::Dead };
            assert_eq!(g.classify(x, y), expected);
        }
    }
}

#[test]
fn default_constants() {
    assert_eq!(GRID_SIZE, 50);
    assert_eq!(CLICK_RADIUS, 2);
}
