use vstd::prelude::*;

use crate::coding::{CodingProcess, EntropyCoding};

verus! {

/// The prefix byte that opens every marker.
pub const GLOBAL: u8 = 0xFF;
/// The byte stuffed after a literal `0xFF` inside entropy-coded data.
pub const STUFF: u8 = 0x00;
/// Temporary private use in arithmetic coding.
pub const TEM: u8 = 0x01;
/// Baseline DCT frame.
pub const SOF0: u8 = 0xC0;
/// Extended sequential DCT frame.
pub const SOF1: u8 = 0xC1;
/// Define Huffman table(s).
pub const DHT: u8 = 0xC4;
/// Define arithmetic coding conditioning(s).
pub const DAC: u8 = 0xCC;
/// First restart marker.
pub const RST0: u8 = 0xD0;
/// Last restart marker.
pub const RST7: u8 = 0xD7;
/// Start of image.
pub const SOI: u8 = 0xD8;
/// End of image.
pub const EOI: u8 = 0xD9;
/// Start of scan.
pub const SOS: u8 = 0xDA;
/// Define quantization table(s).
pub const DQT: u8 = 0xDB;
/// Expand reference component(s).
pub const EXP: u8 = 0xDF;
/// JFIF application segment.
pub const APP0: u8 = 0xE0;

/// Whether a marker stands alone or opens a segment with a length field.
#[derive(Debug, Clone, Copy, PartialEq, Eq, Structural)]
pub enum MarkerType {
    Segment,
    StandAlone,
}

/// A marker, identified by the byte that follows the `0xFF` prefix.
#[derive(Debug, Clone, Copy, PartialEq, Eq, Hash, Structural)]
pub struct Marker {
    pub code: u8,
}

/// Marker codes: every byte but the prefix itself and the stuffing byte.
pub open spec fn is_marker_code(code: u8) -> bool {
    code != STUFF && code != GLOBAL
}

/// Markers that may occur more than once in an image.
pub open spec fn repeatable(code: u8) -> bool {
    code == DHT || code == DAC || code == DQT || code == EXP
}

/// Markers with no length field and no payload.
pub open spec fn standalone(code: u8) -> bool {
    (RST0 <= code && code <= RST7) || code == SOI || code == EOI || code == TEM
}

impl Marker {
    /// The two bytes of a marker.
    pub const SIZE: usize = 2;

    pub fn new(code: u8) -> (r: Marker)
        ensures
            r.code == code,
    {
        Marker { code }
    }

    /// Every marker code, in increasing order.
    pub fn all() -> (r: Vec<Marker>)
        ensures
            r@.len() == 254,
            forall|i: int| 0 <= i < r@.len() ==> r@[i].code == i + 1,
    {
        let mut r: Vec<Marker> = Vec::new();
        let mut code: u8 = 1;
        while code < 0xFF
            invariant
                1 <= code <= 0xFF,
                r@.len() == code - 1,
                forall|i: int| 0 <= i < r@.len() ==> r@[i].code == i + 1,
            decreases 0xFF - code,
        {
            r.push(Marker { code });
            code = code + 1;
        }
        r
    }

    /// The prefix and stuffing bytes name no marker.
    pub fn is_invalid_low_byte(&self) -> (r: bool)
        ensures
            r == !is_marker_code(self.code),
    {
        self.code == GLOBAL || self.code == STUFF
    }

    /// Whether the marker may occur at most once.
    pub fn singleton(&self) -> (r: bool)
        ensures
            r == !repeatable(self.code),
    {
        !(self.code == DHT || self.code == DAC || self.code == DQT || self.code == EXP)
    }

    /// Some markers stand alone, that is, they open no marker segment.
    pub fn is_segment(&self) -> (r: MarkerType)
        ensures
            r == (if standalone(self.code) { MarkerType::StandAlone } else { MarkerType::Segment }),
    {
        if (RST0 <= self.code && self.code <= RST7) || self.code == SOI || self.code == EOI
            || self.code == TEM {
            MarkerType::StandAlone
        } else {
            MarkerType::Segment
        }
    }

    /// The coding process that a start-of-frame marker announces; `None` for
    /// every marker but the two sequential Huffman frames.
    pub fn encoding_process(&self) -> (r: Option<(CodingProcess, EntropyCoding)>)
        ensures
            self.code == SOF0 ==> (r matches Some((CodingProcess::BaselineDCT, EntropyCoding::Huffman(t))) && t@.len() == 0),
            self.code == SOF1 ==> (r matches Some((CodingProcess::ExtendedSequentialDCT, EntropyCoding::Huffman(t))) && t@.len() == 0),
            self.code != SOF0 && self.code != SOF1 ==> r is None,
    {
        if self.code == SOF0 {
            Some((CodingProcess::BaselineDCT, EntropyCoding::Huffman(Vec::new())))
        } else if self.code == SOF1 {
            Some((CodingProcess::ExtendedSequentialDCT, EntropyCoding::Huffman(Vec::new())))
        } else {
            None
        }
    }

    /// The marker as it stands in the byte stream, big-endian.
    pub fn to_u16(&self) -> (r: u16)
        ensures
            r == 0xFF00 + self.code,
    {
        0xFF00u16 + self.code as u16
    }
}

} // verus!
