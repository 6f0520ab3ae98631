use rways::canvas::{cell_rect, cell_size};
use rways::grid::{birth, kill, new_grid, CellState, Grid, GridError};
use rways::life::{apply, scan, step};
use rways::seed::{random_coordinates, seed, seed_random};
use rways::topology::{neighbors_of, wrap};

fn grid_with(width: u32, height: u32, live: &[(u32, u32)]) -> Grid {
    let mut g = new_grid(width, height).unwrap();
    seed(&mut g, &live.to_vec()).unwrap();
    g
}

fn true_count(g: &Grid, x: u32, y: u32) -> u32 {
    let mut n = 0;
    for (nx, ny) in neighbors_of(x, y, g.width(), g.height()) {
        if g.is_alive(nx, ny).unwrap() {
            n += 1;
        }
    }
    n
}

fn snapshot(g: &Grid) -> Vec<(bool, u32)> {
    let mut out = Vec::new();
    for y in 0..g.height() {
        for x in 0..g.width() {
            out.push((g.is_alive(x, y).unwrap(), g.neighbor_count(x, y).unwrap()));
        }
    }
    out
}

fn live_cells(g: &Grid) -> Vec<(u32, u32)> {
    let mut out = Vec::new();
    for y in 0..g.height() {
        for x in 0..g.width() {
            if g.is_alive(x, y).unwrap() {
                out.push((x, y));
            }
        }
    }
    out
}

fn assert_counts_consistent(g: &Grid) {
    for y in 0..g.height() {
        for x in 0..g.width() {
            assert_eq!(g.neighbor_count(x, y).unwrap(), true_count(g, x, y), "at ({}, {})", x, y);
        }
    }
}

#[test]
fn wrap_steps_back_onto_the_axis() {
    assert_eq!(wrap(-1, 8), 7);
    assert_eq!(wrap(8, 8), 0);
    assert_eq!(wrap(0, 8), 0);
    assert_eq!(wrap(7, 8), 7);
    assert_eq!(wrap(3, 8), 3);
}

#[test]
fn neighbors_of_corner_wrap_around() {
    let mut n = neighbors_of(0, 0, 8, 8);
    n.sort();
    let mut expected = vec![(7, 7), (0, 7), (1, 7), (7, 0), (1, 0), (7, 1), (0, 1), (1, 1)];
    expected.sort();
    assert_eq!(n, expected);
}

#[test]
fn new_grid_is_all_dead_with_zero_counts() {
    let g = new_grid(4, 3).unwrap();
    assert_eq!(g.width(), 4);
    assert_eq!(g.height(), 3);
    assert_eq!(g.cell_count(), 12);
    for y in 0..3 {
        for x in 0..4 {
            let c = g.cell(x, y).unwrap();
            assert_eq!((c.x, c.y, c.neighbors, c.state), (x, y, 0, CellState::Dead));
        }
    }
}

#[test]
fn degenerate_dimensions_are_rejected() {
    assert_eq!(new_grid(2, 5).err(), Some(GridError::DegenerateGrid));
    assert_eq!(new_grid(5, 2).err(), Some(GridError::DegenerateGrid));
    assert_eq!(new_grid(0, 0).err(), Some(GridError::DegenerateGrid));
    assert!(new_grid(3, 3).is_ok());
}

#[test]
fn out_of_bounds_coordinates_are_errors() {
    let mut g = new_grid(5, 5).unwrap();
    assert_eq!(birth(&mut g, 5, 0), Err(GridError::CoordinateOutOfBounds));
    assert_eq!(kill(&mut g, 0, 5), Err(GridError::CoordinateOutOfBounds));
    assert_eq!(g.cell(9, 9).err(), Some(GridError::CoordinateOutOfBounds));
    assert_eq!(g.is_alive(5, 1).err(), Some(GridError::CoordinateOutOfBounds));
    assert_eq!(g.neighbor_count(1, 5).err(), Some(GridError::CoordinateOutOfBounds));
    assert_eq!(seed(&mut g, &vec![(1, 1), (7, 1)]), Err(GridError::CoordinateOutOfBounds));
    assert!(live_cells(&g).is_empty());
    assert_eq!(apply(&mut g, &vec![(0, 9)], &vec![]).err(), Some(GridError::CoordinateOutOfBounds));
    assert!(live_cells(&g).is_empty());
}

#[test]
fn counts_stay_consistent_over_mutations() {
    let mut g = new_grid(6, 5).unwrap();
    let mut state: u64 = 12345;
    for _ in 0..300 {
        state = state.wrapping_mul(6364136223846793005).wrapping_add(1442695040888963407);
        let x = ((state >> 33) % 6) as u32;
        let y = ((state >> 17) % 5) as u32;
        if (state >> 7) % 2 == 0 {
            birth(&mut g, x, y).unwrap();
        } else {
            kill(&mut g, x, y).unwrap();
        }
        assert_counts_consistent(&g);
    }
}

#[test]
fn birth_on_live_cell_and_kill_on_dead_cell_change_nothing() {
    let mut g = grid_with(5, 5, &[(1, 1), (2, 1)]);
    let before = snapshot(&g);
    birth(&mut g, 1, 1).unwrap();
    assert_eq!(snapshot(&g), before);
    kill(&mut g, 4, 4).unwrap();
    assert_eq!(snapshot(&g), before);
}

#[test]
fn birth_then_kill_restores_the_grid() {
    let mut g = grid_with(6, 6, &[(0, 0), (3, 4), (5, 5)]);
    let before = snapshot(&g);
    birth(&mut g, 1, 0).unwrap();
    assert_ne!(snapshot(&g), before);
    kill(&mut g, 1, 0).unwrap();
    assert_eq!(snapshot(&g), before);
}

#[test]
fn birth_at_origin_wraps_to_the_far_edges() {
    let mut g = new_grid(8, 8).unwrap();
    birth(&mut g, 0, 0).unwrap();
    let raised = [(7, 7), (0, 7), (1, 7), (7, 0), (1, 0), (7, 1), (0, 1), (1, 1)];
    for y in 0..8 {
        for x in 0..8 {
            let expected = if raised.contains(&(x, y)) { 1 } else { 0 };
            assert_eq!(g.neighbor_count(x, y).unwrap(), expected, "at ({}, {})", x, y);
        }
    }
}

#[test]
fn isolated_cell_dies_and_empty_grid_stays_empty() {
    let mut g = new_grid(5, 5).unwrap();
    birth(&mut g, 2, 2).unwrap();
    assert_eq!(g.neighbor_count(2, 2).unwrap(), 0);
    let (life, death) = scan(&g);
    assert_eq!(life, vec![]);
    assert_eq!(death, vec![(2, 2)]);
    let (changed_life, changed_death) = step(&mut g);
    assert_eq!(changed_life, vec![]);
    assert_eq!(changed_death, vec![(2, 2)]);
    assert!(live_cells(&g).is_empty());
    for _ in 0..3 {
        let (l, d) = step(&mut g);
        assert!(l.is_empty() && d.is_empty());
        assert!(live_cells(&g).is_empty());
    }
}

#[test]
fn l_shape_becomes_a_block() {
    let mut g = grid_with(6, 6, &[(1, 1), (2, 1), (1, 2)]);
    assert_eq!(g.neighbor_count(2, 2).unwrap(), 3);
    let (changed_life, changed_death) = step(&mut g);
    assert_eq!(changed_life, vec![(2, 2)]);
    assert_eq!(changed_death, vec![]);
    assert_eq!(live_cells(&g), vec![(1, 1), (2, 1), (1, 2), (2, 2)]);
    let (l, d) = step(&mut g);
    assert!(l.is_empty() && d.is_empty());
    assert_counts_consistent(&g);
}

#[test]
fn blinker_oscillates() {
    let mut g = grid_with(5, 5, &[(1, 2), (2, 2), (3, 2)]);
    let (born, died) = step(&mut g);
    assert_eq!(born, vec![(2, 1), (2, 3)]);
    assert_eq!(died, vec![(1, 2), (3, 2)]);
    assert_eq!(live_cells(&g), vec![(2, 1), (2, 2), (2, 3)]);
    let (born, died) = step(&mut g);
    assert_eq!(born, vec![(1, 2), (3, 2)]);
    assert_eq!(died, vec![(2, 1), (2, 3)]);
    assert_counts_consistent(&g);
}

#[test]
fn scan_classifies_survivors_births_and_deaths() {
    let g = grid_with(5, 5, &[(1, 2), (2, 2), (3, 2)]);
    let (life, death) = scan(&g);
    assert_eq!(life, vec![(2, 1), (2, 2), (2, 3)]);
    assert_eq!(death, vec![(1, 2), (3, 2)]);
}

#[test]
fn apply_reports_only_flipped_cells() {
    let mut g = grid_with(5, 5, &[(1, 1), (2, 2)]);
    let (changed_life, changed_death) =
        apply(&mut g, &vec![(2, 2), (3, 3), (3, 3)], &vec![(1, 1), (0, 0), (1, 1)]).unwrap();
    assert_eq!(changed_life, vec![(3, 3)]);
    assert_eq!(changed_death, vec![(1, 1)]);
    assert_eq!(live_cells(&g), vec![(2, 2), (3, 3)]);
    assert_counts_consistent(&g);
}

#[test]
fn identical_seeds_give_identical_runs() {
    let seeds = [(1, 0), (2, 1), (0, 2), (1, 2), (2, 2), (5, 5), (6, 5)];
    let mut a = grid_with(8, 7, &seeds);
    let mut b = grid_with(8, 7, &seeds);
    for _ in 0..12 {
        assert_eq!(step(&mut a), step(&mut b));
        assert_eq!(snapshot(&a), snapshot(&b));
    }
}

#[test]
fn glider_travels_across_the_edge() {
    let mut g = grid_with(6, 6, &[(1, 0), (2, 1), (0, 2), (1, 2), (2, 2)]);
    for _ in 0..24 {
        step(&mut g);
        assert_counts_consistent(&g);
    }
    assert_eq!(live_cells(&g), vec![(1, 0), (2, 1), (0, 2), (1, 2), (2, 2)]);
}

#[test]
fn random_coordinates_stay_on_the_grid() {
    let coords = random_coordinates(500, 3, 4);
    assert_eq!(coords.len(), 500);
    assert!(coords.iter().all(|&(x, y)| x < 3 && y < 4));
    assert!(coords.iter().any(|&(x, _)| x != 0));
}

#[test]
fn seed_random_brings_drawn_cells_to_life() {
    let mut g = new_grid(10, 10).unwrap();
    let drawn = seed_random(&mut g, 25);
    assert_eq!(drawn.len(), 25);
    for &(x, y) in &drawn {
        assert!(g.is_alive(x, y).unwrap());
    }
    let live = live_cells(&g);
    assert!(live.iter().all(|p| drawn.contains(p)));
    assert_counts_consistent(&g);
}

#[test]
fn canvas_geometry() {
    assert_eq!(cell_size((1000, 1000), (100, 50)), (10, 20));
    assert_eq!(cell_size((7, 7), (2, 3)), (3, 2));
    assert_eq!(cell_rect((3, 4), (10, 20)), Some((30, 80, 40, 100)));
    assert_eq!(cell_rect((0, 0), (5, 5)), Some((0, 0, 5, 5)));
    assert_eq!(cell_rect((u32::MAX, 0), (1, 1)), None);
    assert_eq!(cell_rect((0, 1 << 20), (1, 1 << 12)), None);
}
