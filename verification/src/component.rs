//! Component descriptors: the block geometry of one colour component.

use vstd::prelude::*;

verus! {

/// Maximum number of colour components a frame may carry, and hence the
/// number of slots a reconstruction context holds.
pub const MAX_COMPONENTS: usize = 4;

/// A size measured in 8x8 blocks.
#[derive(Clone, Copy, PartialEq, Eq, Structural)]
pub struct Dimensions {
    pub width: u16,
    pub height: u16,
}

/// Describes one colour component's block geometry.  Immutable for the
/// lifetime of one plane's reconstruction.
#[derive(Clone, Copy, PartialEq, Eq, Structural)]
pub struct Component {
    /// Number of 8x8 blocks spanning the component's plane.
    pub block_size: Dimensions,
    /// Number of block rows this component contributes per MCU row.
    pub vertical_sampling_factor: u8,
}

/// Exact byte length of the component's finished plane.
pub open spec fn plane_len(c: Component) -> int {
    c.block_size.width * c.block_size.height * 64
}

/// Number of coefficient blocks that make up one MCU row for this component.
pub open spec fn blocks_per_row(c: Component) -> int {
    c.block_size.width * c.vertical_sampling_factor
}

} // verus!
