use vstd::prelude::*;

verus! {

pub open spec fn zoomed_in(zoom: u32) -> int {
    zoom + 1
}

/// One step further out, but never below 1.
pub open spec fn zoomed_out(zoom: u32) -> int {
    if zoom > 1 {
        zoom - 1
    } else {
        1
    }
}

/// Zooming in raises the zoom factor by one.
pub fn zoom_in(zoom: u32) -> (r: u32)
    requires
        zoom < u32::MAX,
    ensures
        r == zoomed_in(zoom),
{
    zoom + 1
}

/// Zooming out lowers the zoom factor by one, but never below 1.
pub fn zoom_out(zoom: u32) -> (r: u32)
    requires
        zoom >= 1,
    ensures
        r == zoomed_out(zoom),
{
    let mut zoom = zoom - 1;
    if zoom < 1 {
        zoom = 1;
    }
    zoom
}

/// Zooming in and then out again restores the zoom factor, and zooming out
/// never goes below 1.
pub proof fn lemma_zoom_in_out(zoom: u32)
    requires
        1 <= zoom < u32::MAX,
    ensures
        zoomed_out(zoomed_in(zoom) as u32) == zoom,
        zoomed_out(zoom) >= 1,
{
}

} // verus!
