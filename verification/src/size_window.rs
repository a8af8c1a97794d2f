use vstd::prelude::*;
use crate::data_types::{SideHorizontal, SideVertical};

verus! {

/// What the size dialog holds while it is open: the size asked for and the
/// sides of the content that stay in place.
pub struct SizeWindow {
    pub open: bool,
    pub width: u32,
    pub height: u32,
    pub keep_horizontal: SideHorizontal,
    pub keep_vertical: SideVertical,
}

impl SizeWindow {
    /// A closed dialog that keeps the centre.
    pub fn new() -> (window: SizeWindow)
        ensures
            !window.open,
            window.width == 0,
            window.height == 0,
            window.keep_horizontal == SideHorizontal::center,
            window.keep_vertical == SideVertical::center,
    {
        SizeWindow {
            open: false,
            width: 0,
            height: 0,
            keep_horizontal: SideHorizontal::center,
            keep_vertical: SideVertical::center,
        }
    }
}

} // verus!
