//! The OS-window collaborator: per-window lifecycle state, one-shot window
//! commands, queryable geometry, and the `Window` handle that owns an index
//! into the context's window table.
//!
//! A window identifier freed by [`Window::release`] goes back on the
//! context's free list and is reused by the next [`Window::new`], so the
//! table does not grow without bound.

use vstd::prelude::*;

use crate::cx::{cx_same_but_windows, Area, Cx};
use crate::events::Event;
use crate::geom::Vec2;

verus! {

/// The lifecycle of an OS window: requested, open, closing, gone.
#[derive(Clone, Debug)]
pub enum CxWindowState {
    Create { title: String, inner_size: Vec2, position: Option<Vec2> },
    Created,
    Close,
    Closed,
}

/// A one-shot command pending for the platform layer; `Idle` when none is.
#[derive(Clone, Copy, Debug, PartialEq, Eq, Structural)]
pub enum CxWindowCmd {
    Idle,
    Restore,
    Maximize,
    Minimize,
    XrStartPresenting,
    XrStopPresenting,
    FullScreen,
    NormalScreen,
}

impl Default for CxWindowCmd {
    fn default() -> (r: Self)
        ensures
            r == CxWindowCmd::Idle,
    {
        CxWindowCmd::Idle
    }
}

/// Measured window geometry, in whole device units.
#[derive(Clone, Copy, Debug, PartialEq, Eq, Structural)]
pub struct WindowGeom {
    pub can_fullscreen: bool,
    pub xr_can_present: bool,
    pub xr_is_presenting: bool,
    pub is_fullscreen: bool,
    pub is_topmost: bool,
    pub position: Vec2,
    pub inner_size: Vec2,
    pub outer_size: Vec2,
}

impl WindowGeom {
    /// The geometry of a window nothing has been measured for yet.
    pub open spec fn initial() -> WindowGeom {
        WindowGeom {
            can_fullscreen: false,
            xr_can_present: false,
            xr_is_presenting: false,
            is_fullscreen: false,
            is_topmost: false,
            position: Vec2 { x: 0, y: 0 },
            inner_size: Vec2 { x: 0, y: 0 },
            outer_size: Vec2 { x: 0, y: 0 },
        }
    }
}

impl Default for WindowGeom {
    fn default() -> (r: Self)
        ensures
            r == WindowGeom::initial(),
    {
        WindowGeom {
            can_fullscreen: false,
            xr_can_present: false,
            xr_is_presenting: false,
            is_fullscreen: false,
            is_topmost: false,
            position: Vec2 { x: 0, y: 0 },
            inner_size: Vec2 { x: 0, y: 0 },
            outer_size: Vec2 { x: 0, y: 0 },
        }
    }
}

/// One slot of the context's window table.
#[derive(Clone, Debug)]
pub struct CxWindow {
    pub window_state: CxWindowState,
    pub window_command: CxWindowCmd,
    pub window_set_position: Option<Vec2>,
    pub window_topmost: Option<bool>,
    pub window_geom: WindowGeom,
    pub main_pass_id: Option<usize>,
}

impl CxWindow {
    /// The size the window was asked for while it is still pending, the
    /// measured size once it is open, and zero after that.
    pub open spec fn inner_size_spec(self) -> Vec2 {
        match self.window_state {
            CxWindowState::Create { inner_size, .. } => inner_size,
            CxWindowState::Created => self.window_geom.inner_size,
            _ => Vec2 { x: 0, y: 0 },
        }
    }

    /// The position the window was asked for while pending, the measured
    /// position once open, and nothing after that.
    pub open spec fn position_spec(self) -> Option<Vec2> {
        match self.window_state {
            CxWindowState::Create { position, .. } => position,
            CxWindowState::Created => Option::Some(self.window_geom.position),
            _ => Option::None,
        }
    }

    pub fn get_inner_size(&self) -> (r: Vec2)
        ensures
            r == self.inner_size_spec(),
    {
        match &self.window_state {
            CxWindowState::Create { inner_size, .. } => *inner_size,
            CxWindowState::Created => self.window_geom.inner_size,
            _ => Vec2 { x: 0, y: 0 },
        }
    }

    pub fn get_position(&self) -> (r: Option<Vec2>)
        ensures
            r == self.position_spec(),
    {
        match &self.window_state {
            CxWindowState::Create { position, .. } => *position,
            CxWindowState::Created => Option::Some(self.window_geom.position),
            _ => Option::None,
        }
    }
}

/// The window table is unchanged except at index `id`.
pub open spec fn windows_same_except(a: Seq<CxWindow>, b: Seq<CxWindow>, id: int) -> bool {
    b.len() == a.len() && forall|k: int| 0 <= k < a.len() && k != id ==> b[k] == a[k]
}

/// The two slots agree on everything but the pending command.
pub open spec fn win_same_but_cmd(a: CxWindow, b: CxWindow) -> bool {
    b.window_state == a.window_state && b.window_set_position == a.window_set_position
        && b.window_topmost == a.window_topmost && b.window_geom == a.window_geom
        && b.main_pass_id == a.main_pass_id
}

/// The two slots agree on everything but the lifecycle state.
pub open spec fn win_same_but_state(a: CxWindow, b: CxWindow) -> bool {
    b.window_command == a.window_command && b.window_set_position == a.window_set_position
        && b.window_topmost == a.window_topmost && b.window_geom == a.window_geom
        && b.main_pass_id == a.main_pass_id
}

/// A handle to one slot of the context's window table.
pub struct Window {
    pub window_id: usize,
}

impl Window {
    /// Make a window handle: reuse the most recently freed identifier, or
    /// grow the table by one slot in the `Create` state with the context's
    /// default size and the placeholder title.
    pub fn new(cx: &mut Cx) -> (r: Window)
        ensures
            final(cx).window_stack@ == old(cx).window_stack@,
            final(cx).default_window_size == old(cx).default_window_size,
            final(cx).redraws@ == old(cx).redraws@,
            old(cx).windows_free@.len() > 0 ==> {
                &&& r.window_id == old(cx).windows_free@.last()
                &&& final(cx).windows_free@ == old(cx).windows_free@.drop_last()
                &&& final(cx).windows@ == old(cx).windows@
            },
            old(cx).windows_free@.len() == 0 ==> {
                &&& r.window_id == old(cx).windows@.len()
                &&& final(cx).windows_free@ == old(cx).windows_free@
                &&& final(cx).windows@.len() == old(cx).windows@.len() + 1
                &&& forall|k: int|
                    0 <= k < old(cx).windows@.len() ==> final(cx).windows@[k] == old(
                        cx,
                    ).windows@[k]
                &&& final(cx).windows@.last().window_state matches CxWindowState::Create {
                    title,
                    inner_size,
                    position,
                }
                &&& title@ == "Fill in here"@
                &&& inner_size == old(cx).default_window_size
                &&& position matches Option::None
                &&& final(cx).windows@.last().window_command == CxWindowCmd::Idle
                &&& final(cx).windows@.last().window_set_position matches Option::None
                &&& final(cx).windows@.last().window_topmost matches Option::None
                &&& final(cx).windows@.last().window_geom == WindowGeom::initial()
                &&& final(cx).windows@.last().main_pass_id matches Option::None
            },
    {
        let window_id = match cx.windows_free.pop() {
            Option::Some(view_id) => view_id,
            Option::None => {
                let window_id = cx.windows.len();
                let inner_size = cx.get_default_window_size();
                cx.windows.push(
                    CxWindow {
                        window_state: CxWindowState::Create {
                            title: "Fill in here".to_string(),
                            inner_size,
                            position: Option::None,
                        },
                        window_command: CxWindowCmd::Idle,
                        window_set_position: Option::None,
                        window_topmost: Option::None,
                        window_geom: WindowGeom::default(),
                        main_pass_id: Option::None,
                    },
                );
                window_id
            },
        };
        Window { window_id }
    }

    /// Give the identifier back to the free list for reuse; hosts call this
    /// when they let go of the handle.
    pub fn release(self, cx: &mut Cx)
        ensures
            final(cx).windows@ == old(cx).windows@,
            final(cx).windows_free@ == old(cx).windows_free@.push(self.window_id),
            final(cx).window_stack@ == old(cx).window_stack@,
            final(cx).default_window_size == old(cx).default_window_size,
            final(cx).redraws@ == old(cx).redraws@,
    {
        cx.windows_free.push(self.window_id);
    }

    /// Open this window's drawing scope: clear its main pass and push it on
    /// the window stack.
    pub fn begin_window(&mut self, cx: &mut Cx)
        requires
            self.window_id < old(cx).windows@.len(),
        ensures
            *final(self) == *old(self),
            final(cx).window_stack@ == old(cx).window_stack@.push(old(self).window_id),
            final(cx).windows_free@ == old(cx).windows_free@,
            final(cx).redraws@ == old(cx).redraws@,
            final(cx).default_window_size == old(cx).default_window_size,
            windows_same_except(old(cx).windows@, final(cx).windows@, old(self).window_id as int),
            final(cx).windows@[old(self).window_id as int].main_pass_id matches Option::None,
            win_same_but_pass(
                old(cx).windows@[old(self).window_id as int],
                final(cx).windows@[old(self).window_id as int],
            ),
    {
        cx.windows[self.window_id].main_pass_id = Option::None;
        cx.window_stack.push(self.window_id);
    }

    /// Close this window's drawing scope: pop the window stack.
    pub fn end_window(&mut self, cx: &mut Cx) -> (r: Area)
        ensures
            *final(self) == *old(self),
            final(cx).windows@ == old(cx).windows@,
            final(cx).windows_free@ == old(cx).windows_free@,
            final(cx).redraws@ == old(cx).redraws@,
            final(cx).default_window_size == old(cx).default_window_size,
            old(cx).window_stack@.len() > 0 ==> final(cx).window_stack@ == old(
                cx,
            ).window_stack@.drop_last(),
            old(cx).window_stack@.len() == 0 ==> final(cx).window_stack@ == old(cx).window_stack@,
            r == Area::Empty,
    {
        let _ = cx.window_stack.pop();
        Area::Empty
    }

    pub fn get_inner_size(&mut self, cx: &mut Cx) -> (r: Vec2)
        requires
            self.window_id < old(cx).windows@.len(),
        ensures
            *final(self) == *old(self),
            *final(cx) == *old(cx),
            r == old(cx).windows@[old(self).window_id as int].inner_size_spec(),
    {
        cx.windows[self.window_id].get_inner_size()
    }

    pub fn get_position(&mut self, cx: &mut Cx) -> (r: Option<Vec2>)
        requires
            self.window_id < old(cx).windows@.len(),
        ensures
            *final(self) == *old(self),
            *final(cx) == *old(cx),
            r == old(cx).windows@[old(self).window_id as int].position_spec(),
    {
        cx.windows[self.window_id].get_position()
    }

    /// Ask the platform layer to move the window.
    pub fn set_position(&mut self, cx: &mut Cx, pos: Vec2)
        requires
            self.window_id < old(cx).windows@.len(),
        ensures
            *final(self) == *old(self),
            cx_same_but_windows(*old(cx), *final(cx)),
            windows_same_except(old(cx).windows@, final(cx).windows@, old(self).window_id as int),
            final(cx).windows@[old(self).window_id as int].window_set_position == Option::Some(pos),
            win_same_but_set_position(
                old(cx).windows@[old(self).window_id as int],
                final(cx).windows@[old(self).window_id as int],
            ),
    {
        cx.windows[self.window_id].window_set_position = Option::Some(pos);
    }

    /// Window events are handled by the platform layer; the handle itself
    /// reacts to none of them.
    pub fn handle_window(&mut self, cx: &mut Cx, event: &Event) -> (r: bool)
        ensures
            *final(self) == *old(self),
            *final(cx) == *old(cx),
            !r,
    {
        let _ = event;
        let _ = cx;
        false
    }

    pub fn minimize_window(&mut self, cx: &mut Cx)
        requires
            self.window_id < old(cx).windows@.len(),
        ensures
            *final(self) == *old(self),
            cx_same_but_windows(*old(cx), *final(cx)),
            windows_same_except(old(cx).windows@, final(cx).windows@, old(self).window_id as int),
            final(cx).windows@[old(self).window_id as int].window_command == CxWindowCmd::Minimize,
            win_same_but_cmd(
                old(cx).windows@[old(self).window_id as int],
                final(cx).windows@[old(self).window_id as int],
            ),
    {
        cx.windows[self.window_id].window_command = CxWindowCmd::Minimize;
    }

    pub fn maximize_window(&mut self, cx: &mut Cx)
        requires
            self.window_id < old(cx).windows@.len(),
        ensures
            *final(self) == *old(self),
            cx_same_but_windows(*old(cx), *final(cx)),
            windows_same_except(old(cx).windows@, final(cx).windows@, old(self).window_id as int),
            final(cx).windows@[old(self).window_id as int].window_command == CxWindowCmd::Maximize,
            win_same_but_cmd(
                old(cx).windows@[old(self).window_id as int],
                final(cx).windows@[old(self).window_id as int],
            ),
    {
        cx.windows[self.window_id].window_command = CxWindowCmd::Maximize;
    }

    pub fn fullscreen_window(&mut self, cx: &mut Cx)
        requires
            self.window_id < old(cx).windows@.len(),
        ensures
            *final(self) == *old(self),
            cx_same_but_windows(*old(cx), *final(cx)),
            windows_same_except(old(cx).windows@, final(cx).windows@, old(self).window_id as int),
            final(cx).windows@[old(self).window_id as int].window_command == CxWindowCmd::FullScreen,
            win_same_but_cmd(
                old(cx).windows@[old(self).window_id as int],
                final(cx).windows@[old(self).window_id as int],
            ),
    {
        cx.windows[self.window_id].window_command = CxWindowCmd::FullScreen;
    }

    pub fn normal_window(&mut self, cx: &mut Cx)
        requires
            self.window_id < old(cx).windows@.len(),
        ensures
            *final(self) == *old(self),
            cx_same_but_windows(*old(cx), *final(cx)),
            windows_same_except(old(cx).windows@, final(cx).windows@, old(self).window_id as int),
            final(cx).windows@[old(self).window_id as int].window_command == CxWindowCmd::NormalScreen,
            win_same_but_cmd(
                old(cx).windows@[old(self).window_id as int],
                final(cx).windows@[old(self).window_id as int],
            ),
    {
        cx.windows[self.window_id].window_command = CxWindowCmd::NormalScreen;
    }

    pub fn restore_window(&mut self, cx: &mut Cx)
        requires
            self.window_id < old(cx).windows@.len(),
        ensures
            *final(self) == *old(self),
            cx_same_but_windows(*old(cx), *final(cx)),
            windows_same_except(old(cx).windows@, final(cx).windows@, old(self).window_id as int),
            final(cx).windows@[old(self).window_id as int].window_command == CxWindowCmd::Restore,
            win_same_but_cmd(
                old(cx).windows@[old(self).window_id as int],
                final(cx).windows@[old(self).window_id as int],
            ),
    {
        cx.windows[self.window_id].window_command = CxWindowCmd::Restore;
    }

    pub fn xr_start_presenting(&mut self, cx: &mut Cx)
        requires
            self.window_id < old(cx).windows@.len(),
        ensures
            *final(self) == *old(self),
            cx_same_but_windows(*old(cx), *final(cx)),
            windows_same_except(old(cx).windows@, final(cx).windows@, old(self).window_id as int),
            final(cx).windows@[old(self).window_id as int].window_command
                == CxWindowCmd::XrStartPresenting,
            win_same_but_cmd(
                old(cx).windows@[old(self).window_id as int],
                final(cx).windows@[old(self).window_id as int],
            ),
    {
        cx.windows[self.window_id].window_command = CxWindowCmd::XrStartPresenting;
    }

    pub fn xr_stop_presenting(&mut self, cx: &mut Cx)
        requires
            self.window_id < old(cx).windows@.len(),
        ensures
            *final(self) == *old(self),
            cx_same_but_windows(*old(cx), *final(cx)),
            windows_same_except(old(cx).windows@, final(cx).windows@, old(self).window_id as int),
            final(cx).windows@[old(self).window_id as int].window_command
                == CxWindowCmd::XrStopPresenting,
            win_same_but_cmd(
                old(cx).windows@[old(self).window_id as int],
                final(cx).windows@[old(self).window_id as int],
            ),
    {
        cx.windows[self.window_id].window_command = CxWindowCmd::XrStopPresenting;
    }

    pub fn can_fullscreen(&mut self, cx: &mut Cx) -> (r: bool)
        requires
            self.window_id < old(cx).windows@.len(),
        ensures
            *final(self) == *old(self),
            *final(cx) == *old(cx),
            r == old(cx).windows@[old(self).window_id as int].window_geom.can_fullscreen,
    {
        cx.windows[self.window_id].window_geom.can_fullscreen
    }

    pub fn xr_can_present(&mut self, cx: &mut Cx) -> (r: bool)
        requires
            self.window_id < old(cx).windows@.len(),
        ensures
            *final(self) == *old(self),
            *final(cx) == *old(cx),
            r == old(cx).windows@[old(self).window_id as int].window_geom.xr_can_present,
    {
        cx.windows[self.window_id].window_geom.xr_can_present
    }

    pub fn is_fullscreen(&mut self, cx: &mut Cx) -> (r: bool)
        requires
            self.window_id < old(cx).windows@.len(),
        ensures
            *final(self) == *old(self),
            *final(cx) == *old(cx),
            r == old(cx).windows@[old(self).window_id as int].window_geom.is_fullscreen,
    {
        cx.windows[self.window_id].window_geom.is_fullscreen
    }

    pub fn xr_is_presenting(&mut self, cx: &mut Cx) -> (r: bool)
        requires
            self.window_id < old(cx).windows@.len(),
        ensures
            *final(self) == *old(self),
            *final(cx) == *old(cx),
            r == old(cx).windows@[old(self).window_id as int].window_geom.xr_is_presenting,
    {
        cx.windows[self.window_id].window_geom.xr_is_presenting
    }

    pub fn is_topmost(&mut self, cx: &mut Cx) -> (r: bool)
        requires
            self.window_id < old(cx).windows@.len(),
        ensures
            *final(self) == *old(self),
            *final(cx) == *old(cx),
            r == old(cx).windows@[old(self).window_id as int].window_geom.is_topmost,
    {
        cx.windows[self.window_id].window_geom.is_topmost
    }

    /// Ask the platform layer to keep the window above the others, or stop.
    pub fn set_topmost(&mut self, cx: &mut Cx, topmost: bool)
        requires
            self.window_id < old(cx).windows@.len(),
        ensures
            *final(self) == *old(self),
            cx_same_but_windows(*old(cx), *final(cx)),
            windows_same_except(old(cx).windows@, final(cx).windows@, old(self).window_id as int),
            final(cx).windows@[old(self).window_id as int].window_topmost == Option::Some(topmost),
            win_same_but_topmost(
                old(cx).windows@[old(self).window_id as int],
                final(cx).windows@[old(self).window_id as int],
            ),
    {
        cx.windows[self.window_id].window_topmost = Option::Some(topmost);
    }

    /// Begin closing the window: its lifecycle state becomes `Close`.
    pub fn close_window(&mut self, cx: &mut Cx)
        requires
            self.window_id < old(cx).windows@.len(),
        ensures
            *final(self) == *old(self),
            cx_same_but_windows(*old(cx), *final(cx)),
            windows_same_except(old(cx).windows@, final(cx).windows@, old(self).window_id as int),
            final(cx).windows@[old(self).window_id as int].window_state matches CxWindowState::Close,
            win_same_but_state(
                old(cx).windows@[old(self).window_id as int],
                final(cx).windows@[old(self).window_id as int],
            ),
    {
        cx.windows[self.window_id].window_state = CxWindowState::Close;
    }
}

/// The two slots agree on everything but the main pass.
pub open spec fn win_same_but_pass(a: CxWindow, b: CxWindow) -> bool {
    b.window_state == a.window_state && b.window_command == a.window_command
        && b.window_set_position == a.window_set_position && b.window_topmost == a.window_topmost
        && b.window_geom == a.window_geom
}

/// The two slots agree on everything but the requested position.
pub open spec fn win_same_but_set_position(a: CxWindow, b: CxWindow) -> bool {
    b.window_state == a.window_state && b.window_command == a.window_command
        && b.window_topmost == a.window_topmost && b.window_geom == a.window_geom
        && b.main_pass_id == a.main_pass_id
}

/// The two slots agree on everything but the topmost request.
pub open spec fn win_same_but_topmost(a: CxWindow, b: CxWindow) -> bool {
    b.window_state == a.window_state && b.window_command == a.window_command
        && b.window_set_position == a.window_set_position && b.window_geom == a.window_geom
        && b.main_pass_id == a.main_pass_id
}

} // verus!
