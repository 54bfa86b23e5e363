pub mod binary_search_tree;
