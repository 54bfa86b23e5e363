pub mod heap_sort;
pub mod min_heap;
