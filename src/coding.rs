use vstd::prelude::*;

use crate::huffman_tree::HuffmanTree;

verus! {

/// The entropy coding of a scan, with the tables it carries.
pub enum EntropyCoding {
    Huffman(Vec<HuffmanTree>),
    Arithmetic,
}

/// The coding processes that a start-of-frame marker can announce.
#[derive(Debug, Clone, Copy, PartialEq, Eq, Structural)]
pub enum CodingProcess {
    BaselineDCT,
    ExtendedSequentialDCT,
}

/// What a coding process admits.
#[derive(Debug, Clone, Copy, PartialEq, Eq)]
pub struct ProcessSchema {
    /// [eight-bit, sixteen-bit]
    pub precisions: [bool; 2],
    /// [sequential, progressive]
    pub operations: [bool; 2],
    /// [Huffman, arithmetic]
    pub entropy_coding: [bool; 2],
    /// (number of AC tables, number of DC tables)
    pub entropy_table_count: (usize, usize),
}

impl CodingProcess {
    pub fn schema(&self) -> (r: ProcessSchema)
        ensures
            *self == CodingProcess::BaselineDCT ==> r.precisions@ == seq![true, false]
                && r.operations@ == seq![true, false] && r.entropy_coding@ == seq![true, false]
                && r.entropy_table_count == (2usize, 2usize),
            *self == CodingProcess::ExtendedSequentialDCT ==> r.precisions@ == seq![true, true]
                && r.operations@ == seq![true, true] && r.entropy_coding@ == seq![true, true]
                && r.entropy_table_count == (4usize, 4usize),
    {
        match self {
            CodingProcess::BaselineDCT => ProcessSchema {
                precisions: [true, false],
                operations: [true, false],
                entropy_coding: [true, false],
                entropy_table_count: (2, 2),
            },
            CodingProcess::ExtendedSequentialDCT => ProcessSchema {
                precisions: [true, true],
                operations: [true, true],
                entropy_coding: [true, true],
                entropy_table_count: (4, 4),
            },
        }
    }
}

} // verus!
