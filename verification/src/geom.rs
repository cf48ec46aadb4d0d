//! Integer screen geometry and drop-position math.
//!
//! Coordinates are whole device units. A drop position inside a target
//! rectangle is classified with a 10%-margin threshold on each edge, testing
//! the edges in the order left, right, top, bottom.

use vstd::prelude::*;

verus! {

/// Coordinates may not exceed this magnitude, so that the threshold products
/// below stay inside `i64`.
pub const COORD_LIMIT: i64 = 0x100_0000_0000_0000;

/// A point or extent in whole device units.
#[derive(Clone, Copy, Debug, PartialEq, Eq, Structural)]
pub struct Vec2 {
    pub x: i64,
    pub y: i64,
}

/// An axis-aligned rectangle, given by its top-left corner and its size.
#[derive(Clone, Copy, Debug, PartialEq, Eq, Structural)]
pub struct Rect {
    pub pos: Vec2,
    pub size: Vec2,
}

impl Vec2 {
    pub open spec fn in_range(self) -> bool {
        -COORD_LIMIT <= self.x <= COORD_LIMIT && -COORD_LIMIT <= self.y <= COORD_LIMIT
    }
}

impl Rect {
    /// The rectangle has positive extent and all corners in coordinate range.
    pub open spec fn wf(self) -> bool {
        self.pos.in_range() && self.size.in_range() && self.size.x > 0 && self.size.y > 0
    }
}

/// Where a dragged item would land, relative to a target rectangle.
#[derive(Clone, Copy, Debug, PartialEq, Eq, Structural)]
pub enum DragPosition {
    Left,
    Right,
    Top,
    Bottom,
    Center,
}

/// The drop-position classification: a pointer within 10% of an edge selects
/// that edge, testing left, then right, then top, then bottom; anything else
/// is the center.
pub open spec fn drag_position_spec(rect: Rect, position: Vec2) -> DragPosition {
    if 10 * (position.x - rect.pos.x) < rect.size.x {
        DragPosition::Left
    } else if 10 * (rect.pos.x + rect.size.x - position.x) < rect.size.x {
        DragPosition::Right
    } else if 10 * (position.y - rect.pos.y) < rect.size.y {
        DragPosition::Top
    } else if 10 * (rect.pos.y + rect.size.y - position.y) < rect.size.y {
        DragPosition::Bottom
    } else {
        DragPosition::Center
    }
}

/// The half or whole of `rect` that a drop at `self` would cover.
pub open spec fn drag_rect_spec(pos: DragPosition, rect: Rect) -> Rect {
    match pos {
        DragPosition::Left => Rect {
            pos: rect.pos,
            size: Vec2 { x: (rect.size.x / 2) as i64, y: rect.size.y },
        },
        DragPosition::Right => Rect {
            pos: Vec2 { x: (rect.pos.x + rect.size.x / 2) as i64, y: rect.pos.y },
            size: Vec2 { x: (rect.size.x / 2) as i64, y: rect.size.y },
        },
        DragPosition::Top => Rect {
            pos: rect.pos,
            size: Vec2 { x: rect.size.x, y: (rect.size.y / 2) as i64 },
        },
        DragPosition::Bottom => Rect {
            pos: Vec2 { x: rect.pos.x, y: (rect.pos.y + rect.size.y / 2) as i64 },
            size: Vec2 { x: rect.size.x, y: (rect.size.y / 2) as i64 },
        },
        DragPosition::Center => rect,
    }
}

impl DragPosition {
    /// Classify a pointer position against a target rectangle.
    pub fn compute_drag_position(rect: Rect, position: Vec2) -> (r: DragPosition)
        requires
            rect.wf(),
            position.in_range(),
        ensures
            r == drag_position_spec(rect, position),
    {
        let top_left = rect.pos;
        if 10 * (position.x - top_left.x) < rect.size.x {
            DragPosition::Left
        } else if 10 * (top_left.x + rect.size.x - position.x) < rect.size.x {
            DragPosition::Right
        } else if 10 * (position.y - top_left.y) < rect.size.y {
            DragPosition::Top
        } else if 10 * (top_left.y + rect.size.y - position.y) < rect.size.y {
            DragPosition::Bottom
        } else {
            DragPosition::Center
        }
    }

    /// The region of `rect` highlighted for a drop at this position: the
    /// matching half for an edge position, all of `rect` for the center.
    pub fn compute_drag_rect(&self, rect: Rect) -> (r: Rect)
        requires
            rect.wf(),
        ensures
            r == drag_rect_spec(*self, rect),
    {
        match self {
            DragPosition::Left => Rect {
                pos: rect.pos,
                size: Vec2 { x: (rect.size.x / 2) as i64, y: rect.size.y },
            },
            DragPosition::Right => Rect {
                pos: Vec2 { x: rect.pos.x + rect.size.x / 2, y: rect.pos.y },
                size: Vec2 { x: (rect.size.x / 2) as i64, y: rect.size.y },
            },
            DragPosition::Top => Rect {
                pos: rect.pos,
                size: Vec2 { x: rect.size.x, y: (rect.size.y / 2) as i64 },
            },
            DragPosition::Bottom => Rect {
                pos: Vec2 { x: rect.pos.x, y: rect.pos.y + rect.size.y / 2 },
                size: Vec2 { x: rect.size.x, y: (rect.size.y / 2) as i64 },
            },
            DragPosition::Center => rect,
        }
    }
}

} // verus!
