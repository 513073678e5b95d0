pub mod compression;
pub mod recursive_stuff;
pub mod search;
pub mod sorting;
