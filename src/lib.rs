//! Baseline sequential-DCT JPEG (JFIF) decoding: marker scanning, segment
//! parsing, Huffman tree construction, entropy decoding, de-zigzagging and
//! dequantization, each stated and proved against a mathematical model.

pub mod bitreader;
pub mod coding;
pub mod decoder;
pub mod dequantizer;
pub mod entropy_decoder;
pub mod error;
pub mod frame_header;
pub mod grayscale;
pub mod huffman_tree;
pub mod marker;
pub mod parser;
pub mod quantization_table;
pub mod sample_precision;
pub mod scan_header;
pub mod scanner;
pub mod stuffing;
