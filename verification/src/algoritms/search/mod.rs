pub mod binary_search;
