use vstd::prelude::*;

verus! {

#[derive(Debug, Clone, Copy, PartialEq, Eq, Structural)]
pub enum SamplePrecision {
    EightBit,
    SixteenBit,
}

impl SamplePrecision {
    /// The precision that a table's 4-bit precision field names:
    /// 0 for 8-bit values, 1 for 16-bit values.
    pub fn decode(b: u8) -> (r: Option<SamplePrecision>)
        ensures
            b == 0 ==> r == Some(SamplePrecision::EightBit),
            b == 1 ==> r == Some(SamplePrecision::SixteenBit),
            b > 1 ==> r is None,
    {
        if b == 0 {
            Some(SamplePrecision::EightBit)
        } else if b == 1 {
            Some(SamplePrecision::SixteenBit)
        } else {
            None
        }
    }

    /// The precision that a frame header's bits-per-sample byte names.
    pub fn parse(number_of_bits: u8) -> (r: Option<SamplePrecision>)
        ensures
            number_of_bits == 8 ==> r == Some(SamplePrecision::EightBit),
            number_of_bits == 16 ==> r == Some(SamplePrecision::SixteenBit),
            number_of_bits != 8 && number_of_bits != 16 ==> r is None,
    {
        if number_of_bits == 8 {
            Some(SamplePrecision::EightBit)
        } else if number_of_bits == 16 {
            Some(SamplePrecision::SixteenBit)
        } else {
            None
        }
    }
}

} // verus!
