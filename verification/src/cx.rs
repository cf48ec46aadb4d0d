//! The hosting context: the window table and the redraw-request log that the
//! dock's mutation operations append to.

use vstd::prelude::*;

use crate::geom::Vec2;
use crate::idmap::ItemId;
use crate::window::CxWindow;

verus! {

/// A request to repaint something on the next draw pass.
#[derive(Clone, Copy, Debug, PartialEq, Eq, Structural)]
pub enum Redraw {
    /// The whole dock area.
    Area,
    /// The content region under the tab strip of the given tabs node.
    Contents(ItemId),
    /// The region of the given node and the widgets materialised under it.
    Item(ItemId),
}

/// A handle to a drawn region. The hosting layout engine owns real regions;
/// here only the empty one is ever handed back.
#[derive(Clone, Copy, Debug, PartialEq, Eq, Structural)]
pub enum Area {
    Empty,
}

/// The per-application context: the window table with its free list and
/// stack of open windows, and the pending redraw requests.
pub struct Cx {
    pub windows: Vec<CxWindow>,
    pub windows_free: Vec<usize>,
    pub window_stack: Vec<usize>,
    pub default_window_size: Vec2,
    pub redraws: Vec<Redraw>,
}

impl Cx {
    pub fn new(default_window_size: Vec2) -> (r: Cx)
        ensures
            r.windows@ == Seq::<CxWindow>::empty(),
            r.windows_free@ == Seq::<usize>::empty(),
            r.window_stack@ == Seq::<usize>::empty(),
            r.default_window_size == default_window_size,
            r.redraws@ == Seq::<Redraw>::empty(),
    {
        Cx {
            windows: Vec::new(),
            windows_free: Vec::new(),
            window_stack: Vec::new(),
            default_window_size,
            redraws: Vec::new(),
        }
    }

    pub fn get_default_window_size(&self) -> (r: Vec2)
        ensures
            r == self.default_window_size,
    {
        self.default_window_size
    }
}

/// Everything of the context except the window table is unchanged.
pub open spec fn cx_same_but_windows(a: Cx, b: Cx) -> bool {
    b.windows_free@ == a.windows_free@ && b.window_stack@ == a.window_stack@
        && b.default_window_size == a.default_window_size && b.redraws@ == a.redraws@
}

/// Everything of the context except the redraw log is unchanged.
pub open spec fn cx_same_but_redraws(a: Cx, b: Cx) -> bool {
    b.windows@ == a.windows@ && b.windows_free@ == a.windows_free@ && b.window_stack@
        == a.window_stack@ && b.default_window_size == a.default_window_size
}

} // verus!
