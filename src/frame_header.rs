use vstd::prelude::*;

use crate::sample_precision::SamplePrecision;
use crate::scan_header::EncodingOrder;

verus! {

/// The frame header (SOF0): sample precision, image size and components.
#[derive(Debug)]
pub struct FrameHeader {
    /// P: precision in bits of the samples.
    pub precision: SamplePrecision,
    /// Y: number of lines.
    pub image_height: usize,
    /// X: number of samples per line.
    pub image_width: usize,
    /// Nf: one component (grayscale) or three (colour).
    pub component_type: ComponentType,
    pub components: Vec<Component>,
}

/// The frame header under the name used by the interchange layer.
pub type FrameData = FrameHeader;

#[derive(Debug, Clone, Copy, PartialEq, Eq, Structural)]
pub enum ComponentType {
    Grayscale,
    Color,
}

/// The component type and encoding order that a component count names:
/// 1 for grayscale (non-interleaved), 3 for colour (interleaved).
pub open spec fn component_type_of(b: u8) -> Option<(ComponentType, EncodingOrder)> {
    if b == 1 {
        Some((ComponentType::Grayscale, EncodingOrder::NonInterleaved))
    } else if b == 3 {
        Some((ComponentType::Color, EncodingOrder::Interleaved))
    } else {
        None
    }
}

impl ComponentType {
    pub fn from(b: u8) -> (r: Option<(ComponentType, EncodingOrder)>)
        ensures
            r == component_type_of(b),
    {
        if b == 1 {
            Some((ComponentType::Grayscale, EncodingOrder::NonInterleaved))
        } else if b == 3 {
            Some((ComponentType::Color, EncodingOrder::Interleaved))
        } else {
            None
        }
    }
}

/// One of the two-dimensional arrays an image is made of.
#[derive(Debug, Clone, Copy, PartialEq, Eq, Structural)]
pub struct Component {
    /// Ci: the label that scan headers use for the component.
    pub component_id: u8,
    /// Hi: horizontal sampling factor.
    pub horizontal_scaling_factor: u8,
    /// Vi: vertical sampling factor.
    pub vertical_scaling_factor: u8,
    /// Tqi: destination of the component's quantization table.
    pub qt_table_id: u8,
}

impl Component {
    pub fn from(component_id: u8, horizontal_sf: u8, vertical_sf: u8, qt_table_id: u8) -> (r: Component)
        ensures
            r == (Component {
                component_id,
                horizontal_scaling_factor: horizontal_sf,
                vertical_scaling_factor: vertical_sf,
                qt_table_id,
            }),
    {
        Component {
            component_id,
            horizontal_scaling_factor: horizontal_sf,
            vertical_scaling_factor: vertical_sf,
            qt_table_id,
        }
    }
}

} // verus!
