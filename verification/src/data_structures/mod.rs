pub mod avl_bst;
pub mod avl_lemmas;
pub mod b_tree;
pub mod bst;
pub mod buckets;
pub mod chains;
pub mod entries;
pub mod graphs;
pub mod hash_tables;
pub mod hash_tables_generic;
pub mod tree;
