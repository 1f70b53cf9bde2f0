use vstd::prelude::*;

use crate::frame_header::ComponentType;

verus! {

/// How a scan orders the data units of its components.
#[derive(Debug, Clone, Copy, PartialEq, Eq, Structural)]
pub enum EncodingOrder {
    /// All data units of one component before those of the next.
    NonInterleaved,
    /// One data unit of each component in turn.
    Interleaved,
}

/// The scan header (SOS).
#[derive(Debug)]
pub struct ScanHeader {
    pub encoding_order: EncodingOrder,
    /// Ns: the number of components in the scan.
    pub component_type: ComponentType,
    /// Csj, Tdj, Taj: the scan's components in scan order.
    pub scan_component_selectors: Vec<ScanComponentSelector>,
    /// Ss: first DCT coefficient coded in the scan.
    pub start_of_spectral: u8,
    /// Se: last DCT coefficient coded in the scan.
    pub end_of_spectral: u8,
    /// Ah: successive approximation bit position high.
    pub successive_approx_bit_position_high: u8,
    /// Al: point transform.
    pub point_transform: u8,
}

/// A scan component and the destinations of its DC and AC tables.
#[derive(Debug, Clone, Copy, PartialEq, Eq, Structural)]
pub struct ScanComponentSelector {
    pub component_id: u8,
    /// Tdj: DC entropy table destination.
    pub dc_destination_id: u8,
    /// Taj: AC entropy table destination.
    pub ac_destination_id: u8,
}

/// A scan component selector under the name used by the interchange layer.
pub type ScanData = ScanComponentSelector;

impl ScanComponentSelector {
    pub fn from(component_id: u8, dc_destination_id: u8, ac_destination_id: u8) -> (r: ScanComponentSelector)
        ensures
            r == (ScanComponentSelector { component_id, dc_destination_id, ac_destination_id }),
    {
        ScanComponentSelector { component_id, dc_destination_id, ac_destination_id }
    }
}

} // verus!
