use vstd::prelude::*;

pub mod grid;
pub mod grid_task;
pub mod solver;
pub mod utils;

pub use grid_task::{CandidateMap, GridTask};
pub use solver::{propagate, solve_grid, solve_sequentially, Propagation};
pub use utils::{
    conjugate_block_index, conjugate_col_index, conjugate_row_index, render, str_to_vecu8,
    vecu8_to_str,
};

verus! {

} // verus!
