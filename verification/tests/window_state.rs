//! The window collaborator: lifecycle states, one-shot commands, geometry
//! queries and identifier reuse through the free list.

use dock::cx::{Area, Cx};
use dock::geom::Vec2;
use dock::window::{CxWindowCmd, CxWindowState, Window, WindowGeom};

fn new_cx() -> Cx {
    Cx::new(Vec2 { x: 800, y: 600 })
}

#[test]
fn new_window_starts_in_create_state_with_default_size() {
    let mut cx = new_cx();
    let w = Window::new(&mut cx);
    assert_eq!(w.window_id, 0);
    assert_eq!(cx.windows.len(), 1);
    match &cx.windows[0].window_state {
        CxWindowState::Create {
            title,
            inner_size,
            position,
        } => {
            assert_eq!(title.as_str(), "Fill in here");
            assert_eq!(*inner_size, Vec2 { x: 800, y: 600 });
            assert!(position.is_none());
        }
        _ => panic!("new window is not pending creation"),
    }
    assert_eq!(cx.windows[0].window_command, CxWindowCmd::Idle);
}

#[test]
fn released_identifiers_are_reused() {
    let mut cx = new_cx();
    let w0 = Window::new(&mut cx);
    let first = w0.window_id;
    w0.release(&mut cx);
    assert_eq!(cx.windows_free, vec![first]);
    let w1 = Window::new(&mut cx);
    assert_eq!(w1.window_id, first);
    assert!(cx.windows_free.is_empty());
    // the table did not grow for the reused identifier
    assert_eq!(cx.windows.len(), 1);
}

#[test]
fn commands_are_stored_one_shot() {
    let mut cx = new_cx();
    let mut w = Window::new(&mut cx);
    w.minimize_window(&mut cx);
    assert_eq!(cx.windows[0].window_command, CxWindowCmd::Minimize);
    w.maximize_window(&mut cx);
    assert_eq!(cx.windows[0].window_command, CxWindowCmd::Maximize);
    w.fullscreen_window(&mut cx);
    assert_eq!(cx.windows[0].window_command, CxWindowCmd::FullScreen);
    w.normal_window(&mut cx);
    assert_eq!(cx.windows[0].window_command, CxWindowCmd::NormalScreen);
    w.restore_window(&mut cx);
    assert_eq!(cx.windows[0].window_command, CxWindowCmd::Restore);
    w.xr_start_presenting(&mut cx);
    assert_eq!(cx.windows[0].window_command, CxWindowCmd::XrStartPresenting);
    w.xr_stop_presenting(&mut cx);
    assert_eq!(cx.windows[0].window_command, CxWindowCmd::XrStopPresenting);
}

#[test]
fn geometry_queries_read_the_measured_geometry() {
    let mut cx = new_cx();
    let mut w = Window::new(&mut cx);
    cx.windows[0].window_geom = WindowGeom {
        can_fullscreen: true,
        xr_can_present: false,
        xr_is_presenting: false,
        is_fullscreen: true,
        is_topmost: false,
        position: Vec2 { x: 3, y: 4 },
        inner_size: Vec2 { x: 640, y: 480 },
        outer_size: Vec2 { x: 660, y: 500 },
    };
    assert!(w.can_fullscreen(&mut cx));
    assert!(!w.xr_can_present(&mut cx));
    assert!(w.is_fullscreen(&mut cx));
    assert!(!w.xr_is_presenting(&mut cx));
    assert!(!w.is_topmost(&mut cx));
}

#[test]
fn inner_size_follows_the_lifecycle() {
    let mut cx = new_cx();
    let mut w = Window::new(&mut cx);
    // pending: the requested size
    assert_eq!(w.get_inner_size(&mut cx), Vec2 { x: 800, y: 600 });
    // created: the measured size
    cx.windows[0].window_state = CxWindowState::Created;
    cx.windows[0].window_geom.inner_size = Vec2 { x: 640, y: 480 };
    cx.windows[0].window_geom.position = Vec2 { x: 7, y: 8 };
    assert_eq!(w.get_inner_size(&mut cx), Vec2 { x: 640, y: 480 });
    assert_eq!(w.get_position(&mut cx), Some(Vec2 { x: 7, y: 8 }));
    // closing: nothing
    w.close_window(&mut cx);
    assert!(matches!(
        cx.windows[0].window_state,
        CxWindowState::Close
    ));
    assert_eq!(w.get_inner_size(&mut cx), Vec2 { x: 0, y: 0 });
    assert_eq!(w.get_position(&mut cx), None);
}

#[test]
fn requested_position_and_topmost_are_recorded() {
    let mut cx = new_cx();
    let mut w = Window::new(&mut cx);
    assert_eq!(w.get_position(&mut cx), None);
    w.set_position(&mut cx, Vec2 { x: 11, y: 12 });
    assert_eq!(
        cx.windows[0].window_set_position,
        Some(Vec2 { x: 11, y: 12 })
    );
    w.set_topmost(&mut cx, true);
    assert_eq!(cx.windows[0].window_topmost, Some(true));
}

#[test]
fn begin_and_end_window_drive_the_window_stack() {
    let mut cx = new_cx();
    let mut w = Window::new(&mut cx);
    cx.windows[0].main_pass_id = Some(4);
    w.begin_window(&mut cx);
    assert_eq!(cx.window_stack, vec![0]);
    assert!(cx.windows[0].main_pass_id.is_none());
    let area = w.end_window(&mut cx);
    assert_eq!(area, Area::Empty);
    assert!(cx.window_stack.is_empty());
}

#[test]
fn handle_window_consumes_nothing() {
    let mut cx = new_cx();
    let mut w = Window::new(&mut cx);
    let handled = w.handle_window(&mut cx, &dock::events::Event::Tick);
    assert!(!handled);
    assert_eq!(cx.windows.len(), 1);
}
