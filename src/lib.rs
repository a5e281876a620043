pub mod assignment;
pub mod laws;
pub mod linkedlist;
pub mod order;
pub mod parse;
pub mod permutations;
pub mod puzzle;
pub mod solver_bf;
pub mod solver_bt;
