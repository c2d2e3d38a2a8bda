//! Sizing of the minimap panel.
use vstd::prelude::*;

verus! {

pub const MINIMAP_MIN_CONTENT_SIDE: i32 = 200;
pub const MINIMAP_MAX_CONTENT_SIDE: i32 = 420;
pub const MINIMAP_BORDER_PX: i32 = 10;

/// The side of the minimap's content in pixels: 220 plus 16 per chunk of
/// view radius, kept within the minimum and maximum sides; 0 for a
/// negative radius.
pub open spec fn spec_minimap_side_px(view_radius_chunks: int) -> int {
    if view_radius_chunks < 0 {
        0
    } else {
        let side = 220 + 16 * view_radius_chunks;
        if side < MINIMAP_MIN_CONTENT_SIDE {
            MINIMAP_MIN_CONTENT_SIDE as int
        } else if side > MINIMAP_MAX_CONTENT_SIDE {
            MINIMAP_MAX_CONTENT_SIDE as int
        } else {
            side
        }
    }
}

/// See `spec_minimap_side_px`.
pub fn minimap_side_px(view_radius_chunks: i32) -> (r: i32)
    ensures
        r as int == spec_minimap_side_px(view_radius_chunks as int),
{
    if view_radius_chunks < 0 {
        return 0;
    }
    if view_radius_chunks > 13 {
        return MINIMAP_MAX_CONTENT_SIDE;
    }
    let side: i32 = 220 + 16 * view_radius_chunks;
    if side < MINIMAP_MIN_CONTENT_SIDE {
        MINIMAP_MIN_CONTENT_SIDE
    } else if side > MINIMAP_MAX_CONTENT_SIDE {
        MINIMAP_MAX_CONTENT_SIDE
    } else {
        side
    }
}

} // verus!
