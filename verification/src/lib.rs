pub mod expression;
pub mod hash;
pub mod heap;
pub mod linear_data_structures;
pub mod numbers;
pub mod sort;
pub mod string_matching;
pub mod tree;
