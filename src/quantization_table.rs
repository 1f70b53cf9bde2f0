use vstd::prelude::*;

use crate::sample_precision::SamplePrecision;

verus! {

/// The 64 values that quantized the DCT coefficients of a component.
#[derive(Debug)]
pub struct QuantizationTable {
    /// Pq: precision of the values.
    pub precision: SamplePrecision,
    /// Tq: the destination (0 to 3) the table is installed in.
    pub table_id: u8,
    /// Qk: the 64 values, in zig-zag order.
    pub quantization_table_element: Vec<u8>,
}

/// A quantization table under the name used by the quantizer.
pub type QuantTable = QuantizationTable;

impl QuantizationTable {
    pub fn from(qt_id: u8, precision: SamplePrecision, elements: Vec<u8>) -> (r: QuantizationTable)
        ensures
            r.table_id == qt_id,
            r.precision == precision,
            r.quantization_table_element@ == elements@,
    {
        QuantizationTable { precision, table_id: qt_id, quantization_table_element: elements }
    }
}

} // verus!
