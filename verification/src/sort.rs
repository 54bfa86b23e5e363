pub mod mergesort;
pub mod simple_sort;
