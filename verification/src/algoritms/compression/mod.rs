pub mod code_laws;
pub mod forest;
pub mod huffman;
pub mod hufman;
