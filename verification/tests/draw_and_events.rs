//! The resumable draw traversal, its registry sweep, drop-position math,
//! event reduction and the widget lookups.

use dock::cx::{Cx, Redraw};
use dock::dock::Dock;
use dock::draw::{Cx2d, DrawOp, DrawRoundCorner, ROOT_ID};
use dock::events::{DockAction, DockRef, SplitterAction, TabBarAction};
use dock::geom::{DragPosition, Rect, Vec2};
use dock::idmap::ItemId;
use dock::tree::{Axis, DockItem, SplitterAlign};

fn id(n: u64) -> ItemId {
    ItemId(n)
}

fn new_cx() -> Cx {
    Cx::new(Vec2 { x: 800, y: 600 })
}

fn new_cx2d() -> Cx2d {
    Cx2d::new(rect(0, 0, 800, 600))
}

fn rect(x: i64, y: i64, w: i64, h: i64) -> Rect {
    Rect {
        pos: Vec2 { x, y },
        size: Vec2 { x: w, y: h },
    }
}

fn tab(name: &str, kind: u64) -> DockItem {
    DockItem::Tab {
        name: name.to_string(),
        no_close: false,
        kind: id(kind),
    }
}

fn tabs(members: &[u64], selected: usize) -> DockItem {
    DockItem::Tabs {
        tabs: members.iter().map(|n| id(*n)).collect(),
        selected,
    }
}

fn splitter(a: u64, b: u64) -> DockItem {
    DockItem::Splitter {
        axis: Axis::Horizontal,
        align: SplitterAlign::Weighted(32768),
        a: id(a),
        b: id(b),
    }
}

const T1: u64 = 10;
const T2: u64 = 11;
const X: u64 = 21;
const Y: u64 = 22;
const Z: u64 = 23;
const KIND: u64 = 1;

/// root: Splitter{a: T1, b: T2}; T1: Tabs[x, y]; T2: Tabs[z]; template
/// installed for the tab kind.
fn drawable_dock() -> Dock {
    let mut d = Dock::new();
    d.set_item(id(ROOT_ID), splitter(T1, T2));
    d.set_item(id(T1), tabs(&[X, Y], 0));
    d.set_item(id(T2), tabs(&[Z], 0));
    d.set_item(id(X), tab("x", KIND));
    d.set_item(id(Y), tab("y", KIND));
    d.set_item(id(Z), tab("z", KIND));
    d.install_template(id(KIND), 7000);
    d
}

fn draw_to_end(d: &mut Dock, cx: &mut Cx2d, max_steps: usize) {
    let mut rounds = 0;
    loop {
        if d.draw_walk_widget(cx, max_steps) {
            return;
        }
        rounds += 1;
        assert!(rounds < 1000, "draw pass did not finish");
    }
}

fn registry_keys_tb(d: &Dock) -> Vec<u64> {
    let mut v: Vec<u64> = d.tab_bars.entries.iter().map(|e| (e.0).0).collect();
    v.sort();
    v
}

fn registry_keys_sp(d: &Dock) -> Vec<u64> {
    let mut v: Vec<u64> = d.splitters.entries.iter().map(|e| (e.0).0).collect();
    v.sort();
    v
}

#[test]
fn draw_materialises_reachable_registries() {
    let mut d = drawable_dock();
    let mut cx = new_cx2d();
    draw_to_end(&mut d, &mut cx, 100);
    assert_eq!(registry_keys_tb(&d), vec![T1, T2]);
    assert_eq!(registry_keys_sp(&d), vec![ROOT_ID]);
    // freshly created panels draw their selected content widgets
    assert_eq!(d.items.entries.len(), 2);
    assert_eq!(cx.ops.first(), Some(&DrawOp::BeginDock));
    assert_eq!(cx.ops.last(), Some(&DrawOp::EndDock));
    assert!(cx.ops.contains(&DrawOp::BeginTabBar {
        id: id(T1),
        selected: 0
    }));
    assert!(cx
        .ops
        .iter()
        .any(|op| matches!(op, DrawOp::TabLabel { tab_id, .. } if tab_id.0 == Z)));
}

#[test]
fn drawing_twice_materialises_the_same_registries() {
    // Idempotence: a second pass over the unchanged tree visits the same
    // nodes, so the swept registries hold the same keys and no content
    // widget is created twice.
    let mut d = drawable_dock();
    let mut cx = new_cx2d();
    draw_to_end(&mut d, &mut cx, 100);
    let tb1 = registry_keys_tb(&d);
    let sp1 = registry_keys_sp(&d);
    let items1 = d.items.entries.len();
    draw_to_end(&mut d, &mut cx, 100);
    assert_eq!(registry_keys_tb(&d), tb1);
    assert_eq!(registry_keys_sp(&d), sp1);
    assert_eq!(d.items.entries.len(), items1);
}

#[test]
fn a_large_enough_budget_finishes_in_one_call() {
    let mut d = drawable_dock();
    let mut cx = new_cx2d();
    assert!(d.draw_walk_widget(&mut cx, 100));
    // and again from the swept state
    assert!(d.draw_walk_widget(&mut cx, 100));
}

#[test]
fn draw_pauses_and_resumes_one_frame_at_a_time() {
    let mut d = drawable_dock();
    let mut cx = new_cx2d();
    let mut rounds = 0;
    while !d.draw_walk_widget(&mut cx, 1) {
        rounds += 1;
        assert!(rounds < 1000, "single-step draw did not finish");
    }
    assert!(rounds > 3);
    assert_eq!(registry_keys_tb(&d), vec![T1, T2]);
    assert_eq!(registry_keys_sp(&d), vec![ROOT_ID]);
}

#[test]
fn sweep_drops_registries_for_removed_panels() {
    let mut d = drawable_dock();
    let mut cx2d = new_cx2d();
    draw_to_end(&mut d, &mut cx2d, 100);
    assert_eq!(registry_keys_tb(&d), vec![T1, T2]);
    // close the only tab of T2: the tree loses T2 and the splitter
    let mut cx = new_cx();
    d.close_tab(&mut cx, id(Z));
    draw_to_end(&mut d, &mut cx2d, 100);
    // T2 was not visited any more and its runtime state was swept;
    // the dissolved splitter's instance went with it
    assert_eq!(registry_keys_tb(&d), Vec::<u64>::new());
    assert_eq!(registry_keys_sp(&d), Vec::<u64>::new());
}

#[test]
fn drag_position_uses_ten_percent_margins() {
    // Scenario: target {pos: (0, 0), size: (100, 100)}.
    let r = rect(0, 0, 100, 100);
    assert_eq!(
        DragPosition::compute_drag_position(r, Vec2 { x: 5, y: 50 }),
        DragPosition::Left
    );
    assert_eq!(
        DragPosition::compute_drag_position(r, Vec2 { x: 50, y: 50 }),
        DragPosition::Center
    );
    // at (95, 5) both the right and the top margins match; the branch
    // order left, right, top, bottom picks Right
    assert_eq!(
        DragPosition::compute_drag_position(r, Vec2 { x: 95, y: 5 }),
        DragPosition::Right
    );
    assert_eq!(
        DragPosition::compute_drag_position(r, Vec2 { x: 50, y: 5 }),
        DragPosition::Top
    );
    assert_eq!(
        DragPosition::compute_drag_position(r, Vec2 { x: 50, y: 95 }),
        DragPosition::Bottom
    );
    // exactly on the threshold is not within the margin
    assert_eq!(
        DragPosition::compute_drag_position(r, Vec2 { x: 10, y: 50 }),
        DragPosition::Center
    );
}

#[test]
fn drag_rect_covers_the_matching_half() {
    let r = rect(0, 0, 100, 100);
    assert_eq!(DragPosition::Left.compute_drag_rect(r), rect(0, 0, 50, 100));
    assert_eq!(
        DragPosition::Right.compute_drag_rect(r),
        rect(50, 0, 50, 100)
    );
    assert_eq!(DragPosition::Top.compute_drag_rect(r), rect(0, 0, 100, 50));
    assert_eq!(
        DragPosition::Bottom.compute_drag_rect(r),
        rect(0, 50, 100, 50)
    );
    assert_eq!(DragPosition::Center.compute_drag_rect(r), r);
}

#[test]
fn splitter_change_updates_node_and_reports() {
    let mut d = drawable_dock();
    let mut cx = new_cx();
    let action = SplitterAction::Changed {
        axis: Axis::Vertical,
        align: SplitterAlign::FromA(120),
    };
    let out = d.handle_splitter_action(&mut cx, id(ROOT_ID), action);
    assert_eq!(
        out,
        Some(DockAction::SplitPanelChanged {
            panel_id: id(ROOT_ID),
            axis: Axis::Vertical,
            align: SplitterAlign::FromA(120)
        })
    );
    match d.dock_items.get(id(ROOT_ID)) {
        Some(DockItem::Splitter { axis, align, a, b }) => {
            assert_eq!(*axis, Axis::Vertical);
            assert_eq!(*align, SplitterAlign::FromA(120));
            assert_eq!(a.0, T1);
            assert_eq!(b.0, T2);
        }
        _ => panic!("root is not a splitter"),
    }
}

#[test]
fn tab_pressed_selects_and_reports() {
    let mut d = drawable_dock();
    let mut cx = new_cx();
    let out = d.handle_tab_bar_action(&mut cx, id(T1), TabBarAction::TabWasPressed(id(Y)));
    assert_eq!(out, Some(DockAction::TabWasPressed(id(Y))));
    match d.dock_items.get(id(T1)) {
        Some(DockItem::Tabs { selected, .. }) => assert_eq!(*selected, 1),
        _ => panic!("T1 is not a tabs node"),
    }
    assert_eq!(cx.redraws, vec![Redraw::Contents(id(T1))]);
}

#[test]
fn tab_pressed_on_missing_tab_is_ignored() {
    let mut d = drawable_dock();
    let mut cx = new_cx();
    let out = d.handle_tab_bar_action(&mut cx, id(T1), TabBarAction::TabWasPressed(id(99)));
    assert_eq!(out, None);
    match d.dock_items.get(id(T1)) {
        Some(DockItem::Tabs { selected, .. }) => assert_eq!(*selected, 0),
        _ => panic!("T1 is not a tabs node"),
    }
    assert!(cx.redraws.is_empty());
}

#[test]
fn tab_close_pressed_only_reports() {
    // Closing is reported but not performed: the host owns the decision.
    let mut d = drawable_dock();
    let mut cx = new_cx();
    let out = d.handle_tab_bar_action(&mut cx, id(T1), TabBarAction::TabCloseWasPressed(id(X)));
    assert_eq!(out, Some(DockAction::TabCloseWasPressed(id(X))));
    assert_eq!(d.dock_items.len(), 6);
    assert!(d.dock_items.get(id(X)).is_some());
}

#[test]
fn get_item_requires_an_installed_template() {
    let mut d = drawable_dock();
    assert_eq!(d.get_item(id(X), id(99)), None);
    let first = d.get_item(id(X), id(KIND));
    assert!(first.is_some());
    // the same pair resolves to the same materialised widget
    assert_eq!(d.get_item(id(X), id(KIND)), first);
    // a different tree position gets its own instance
    let other = d.get_item(id(Y), id(KIND));
    assert!(other.is_some());
    assert_ne!(other, first);
}

#[test]
fn find_widgets_resolves_tab_leaves() {
    let mut d = drawable_dock();
    let w = d.get_item(id(X), id(KIND)).unwrap();
    let mut results: Vec<u64> = Vec::new();
    d.find_widgets(&vec![id(X)], &mut results);
    assert_eq!(results, vec![w]);
    // a path through a node without a materialised widget yields nothing
    let mut none: Vec<u64> = Vec::new();
    d.find_widgets(&vec![id(Y)], &mut none);
    assert!(none.is_empty());
}

#[test]
fn dock_ref_forwards_close_and_finds_close_presses() {
    let mut dr = DockRef {
        dock: Some(drawable_dock()),
    };
    let mut cx = new_cx();
    dr.close_tab(&mut cx, id(Z));
    match &dr.dock {
        Some(d) => assert!(d.dock_items.get(id(Z)).is_none()),
        None => panic!("handle lost its dock"),
    }
    let actions = vec![
        DockAction::TabWasPressed(id(X)),
        DockAction::TabCloseWasPressed(id(Y)),
        DockAction::TabCloseWasPressed(id(Z)),
    ];
    assert_eq!(dr.clicked_tab_close(&actions), Some(id(Y)));
    assert_eq!(dr.clicked_tab_close(&vec![]), None);
}

#[test]
fn draw_corners_emits_four_quads() {
    let mut painter = DrawRoundCorner { border_radius: 10 };
    let mut cx = new_cx2d();
    painter.draw_corners(&mut cx, rect(0, 0, 100, 80));
    assert_eq!(cx.ops.len(), 4);
    assert_eq!(
        cx.ops[0],
        DrawOp::CornerQuad {
            rect: rect(0, 0, 10, 10),
            flip_x: false,
            flip_y: false
        }
    );
    assert_eq!(
        cx.ops[1],
        DrawOp::CornerQuad {
            rect: rect(90, 0, 10, 10),
            flip_x: true,
            flip_y: false
        }
    );
    assert_eq!(
        cx.ops[2],
        DrawOp::CornerQuad {
            rect: rect(90, 70, 10, 10),
            flip_x: true,
            flip_y: true
        }
    );
    assert_eq!(
        cx.ops[3],
        DrawOp::CornerQuad {
            rect: rect(0, 70, 10, 10),
            flip_x: false,
            flip_y: true
        }
    );
}

#[test]
fn dispatch_reduces_action_lists_in_order() {
    let mut d = drawable_dock();
    let mut cx = new_cx();
    let splitter_acts = vec![(
        id(ROOT_ID),
        SplitterAction::Changed {
            axis: Axis::Vertical,
            align: SplitterAlign::FromB(40),
        },
    )];
    let tab_acts = vec![
        (id(T1), TabBarAction::TabWasPressed(id(Y))),
        (id(T1), TabBarAction::TabWasPressed(id(99))),
        (id(T2), TabBarAction::TabCloseWasPressed(id(Z))),
    ];
    let out = d.handle_widget_event_with(&mut cx, &splitter_acts, &tab_acts);
    assert_eq!(
        out,
        vec![
            DockAction::SplitPanelChanged {
                panel_id: id(ROOT_ID),
                axis: Axis::Vertical,
                align: SplitterAlign::FromB(40)
            },
            DockAction::TabWasPressed(id(Y)),
            DockAction::TabCloseWasPressed(id(Z)),
        ]
    );
    match d.dock_items.get(id(T1)) {
        Some(DockItem::Tabs { selected, .. }) => assert_eq!(*selected, 1),
        _ => panic!("T1 is not a tabs node"),
    }
    // exactly the one listed press asked for a repaint
    assert_eq!(cx.redraws, vec![Redraw::Contents(id(T1))]);
}
