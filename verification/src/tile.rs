use vstd::prelude::*;

verus! {

/// Slippy-map tile address: zoom level `z`, column `x`, row `y`.
#[derive(Clone, Copy, Debug, PartialEq, Eq, Hash, Structural)]
pub struct TileId {
    pub z: u8,
    pub x: u32,
    pub y: u32,
}

impl TileId {
    pub fn new(z: u8, x: u32, y: u32) -> (t: TileId)
        ensures
            t == (TileId { z, x, y }),
    {
        TileId { z, x, y }
    }
}

} // verus!
