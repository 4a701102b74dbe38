use std::collections::HashMap;

use sudoku_solver_rust::{str_to_vecu8, GridTask};

const PUZZLE: &str =
    ".5..83.17...1..4..3.4..56.8....3...9.9.8245....6....7...9....5...729..861.36.72.4";

#[test]
fn test_generate_tasks() {
    let input = PUZZLE;
    let expected_output_len = 47;

    assert_eq!(GridTask::generate_tasks(&str_to_vecu8(input)).len(), expected_output_len)
}

#[test]
fn generated_tasks_follow_blank_cells_in_order() {
    let grid = str_to_vecu8(PUZZLE);
    let tasks = GridTask::generate_tasks(&grid);
    let blanks: Vec<usize> = (0..81).filter(|&k| grid[k] == 0).collect();
    let indices: Vec<usize> = tasks.iter().map(|t| t.index()).collect();
    assert_eq!(indices, blanks);
    assert!(tasks.iter().all(|t| !t.done() && !t.updated()));
}

#[test]
fn new_task_is_fresh() {
    let t = GridTask::new(17);
    assert_eq!(t.index(), 17);
    assert!(!t.done());
    assert!(!t.updated());
}

#[test]
fn reset_done_clears_only_done() {
    let mut grid = str_to_vecu8(PUZZLE);
    let mut map: HashMap<usize, Vec<u8>> = HashMap::new();
    let mut t = GridTask::new(0);
    t.run(&mut grid, &mut map);
    assert!(t.done());
    t.reset_done();
    assert!(!t.done());
    assert_eq!(t.index(), 0);
}

#[test]
fn run_writes_naked_single() {
    // Cell 2 sees 1, 3, 4, 5, 6, 7, 8 and 9 among its peers.
    let mut grid = str_to_vecu8(PUZZLE);
    let before = grid.clone();
    let mut map: HashMap<usize, Vec<u8>> = HashMap::new();
    let mut t = GridTask::new(2);
    t.run(&mut grid, &mut map);
    assert_eq!(t.possible_values(&map), vec![2]);
    assert!(t.updated());
    assert!(t.done());
    assert_eq!(grid[2], 2);
    for k in 0..81 {
        if k != 2 {
            assert_eq!(grid[k], before[k]);
        }
    }
}

#[test]
fn run_leaves_ambiguous_cell_blank() {
    // Cell 3 can take 4 or 9, and no peer has recorded candidates yet.
    let mut grid = str_to_vecu8(PUZZLE);
    let before = grid.clone();
    let mut map: HashMap<usize, Vec<u8>> = HashMap::new();
    let mut t = GridTask::new(3);
    t.run(&mut grid, &mut map);
    assert_eq!(t.possible_values(&map), vec![4, 9]);
    assert!(!t.updated());
    assert!(t.done());
    assert_eq!(grid, before);
}

#[test]
fn run_finds_hidden_single() {
    // In the first round, cell 17 keeps the candidates 2, 3 and 5, but no
    // other blank cell of its row may take 5.
    let mut grid = str_to_vecu8(PUZZLE);
    let mut map: HashMap<usize, Vec<u8>> = HashMap::new();
    let mut tasks = GridTask::generate_tasks(&grid);
    for t in tasks.iter_mut() {
        let before = grid.clone();
        t.run(&mut grid, &mut map);
        if t.index() == 17 {
            assert_eq!(t.possible_values(&map), vec![2, 3, 5]);
            assert!(t.updated());
            assert_eq!(before[17], 0);
            assert_eq!(grid[17], 5);
            return;
        }
    }
    panic!("cell 17 was not reached");
}
