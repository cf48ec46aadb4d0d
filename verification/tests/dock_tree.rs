//! Structural mutations on the dock tree: closing tabs, selecting tabs,
//! unsplitting, and the first-match scan semantics.

use dock::cx::{Cx, Redraw};
use dock::dock::Dock;
use dock::geom::Vec2;
use dock::idmap::ItemId;
use dock::tree::{Axis, DockItem, SplitterAlign};

fn id(n: u64) -> ItemId {
    ItemId(n)
}

fn new_cx() -> Cx {
    Cx::new(Vec2 { x: 800, y: 600 })
}

fn tab(name: &str, kind: u64) -> DockItem {
    DockItem::Tab {
        name: name.to_string(),
        no_close: false,
        kind: id(kind),
    }
}

fn tabs(members: &[u64], selected: usize) -> DockItem {
    DockItem::Tabs {
        tabs: members.iter().map(|n| id(*n)).collect(),
        selected,
    }
}

fn splitter(a: u64, b: u64) -> DockItem {
    DockItem::Splitter {
        axis: Axis::Horizontal,
        align: SplitterAlign::Weighted(32768),
        a: id(a),
        b: id(b),
    }
}

const ROOT: u64 = 0;
const T1: u64 = 10;
const T2: u64 = 11;
const X: u64 = 21;
const Y: u64 = 22;
const Z: u64 = 23;

/// root: Splitter{a: T1, b: T2}; T1: Tabs[x, y]; T2: Tabs[z].
fn two_panel_dock() -> Dock {
    let mut d = Dock::new();
    d.set_item(id(ROOT), splitter(T1, T2));
    d.set_item(id(T1), tabs(&[X, Y], 0));
    d.set_item(id(T2), tabs(&[Z], 0));
    d.set_item(id(X), tab("x", 1));
    d.set_item(id(Y), tab("y", 1));
    d.set_item(id(Z), tab("z", 1));
    d
}

fn tabs_of(d: &Dock, node: u64) -> (Vec<u64>, usize) {
    match d.dock_items.get(id(node)) {
        Some(DockItem::Tabs { tabs, selected }) => {
            (tabs.iter().map(|t| t.0).collect(), *selected)
        }
        _ => panic!("node {} is not a tabs node", node),
    }
}

#[test]
fn close_last_tab_unsplits_and_relinks() {
    // Scenario: closing the only tab of T2 removes z, T2 and the root
    // splitter; T1 survives unchanged as the effective root structure.
    let mut d = two_panel_dock();
    let mut cx = new_cx();
    d.close_tab(&mut cx, id(Z));
    assert!(d.dock_items.get(id(Z)).is_none());
    assert!(d.dock_items.get(id(T2)).is_none());
    assert!(d.dock_items.get(id(ROOT)).is_none());
    let (t1_tabs, t1_sel) = tabs_of(&d, T1);
    assert_eq!(t1_tabs, vec![X, Y]);
    assert_eq!(t1_sel, 0);
    assert!(d.dock_items.get(id(X)).is_some());
    assert!(d.dock_items.get(id(Y)).is_some());
}

#[test]
fn close_tab_clamps_selection() {
    // Scenario: Tabs[a, b, c] with c selected; closing c keeps [a, b] and
    // clamps the selection to the new last tab; no unsplit happens.
    let mut d = Dock::new();
    d.set_item(id(T1), tabs(&[X, Y, Z], 2));
    d.set_item(id(X), tab("a", 1));
    d.set_item(id(Y), tab("b", 1));
    d.set_item(id(Z), tab("c", 1));
    let mut cx = new_cx();
    d.close_tab(&mut cx, id(Z));
    let (t, sel) = tabs_of(&d, T1);
    assert_eq!(t, vec![X, Y]);
    assert_eq!(sel, 1);
    assert!(d.dock_items.get(id(Z)).is_none());
    assert!(d.dock_items.get(id(T1)).is_some());
    // the content region and the whole dock area were asked to repaint
    assert!(cx.redraws.contains(&Redraw::Contents(id(T1))));
    assert_eq!(cx.redraws.last(), Some(&Redraw::Area));
}

#[test]
fn close_tab_keeps_earlier_selection() {
    let mut d = Dock::new();
    d.set_item(id(T1), tabs(&[X, Y, Z], 0));
    d.set_item(id(X), tab("a", 1));
    d.set_item(id(Y), tab("b", 1));
    d.set_item(id(Z), tab("c", 1));
    let mut cx = new_cx();
    d.close_tab(&mut cx, id(Z));
    let (t, sel) = tabs_of(&d, T1);
    assert_eq!(t, vec![X, Y]);
    assert_eq!(sel, 0);
}

#[test]
fn close_unknown_tab_changes_nothing() {
    let mut d = two_panel_dock();
    let mut cx = new_cx();
    d.close_tab(&mut cx, id(99));
    assert_eq!(d.dock_items.len(), 6);
    assert!(cx.redraws.is_empty());
}

#[test]
fn close_last_tab_of_root_tabs_removes_both() {
    // With the tabs node at the root there is no splitter to dissolve, but
    // the emptied tabs node must not persist.
    let mut d = Dock::new();
    d.set_item(id(T1), tabs(&[X], 0));
    d.set_item(id(X), tab("only", 1));
    let mut cx = new_cx();
    d.close_tab(&mut cx, id(X));
    assert!(d.dock_items.get(id(X)).is_none());
    assert!(d.dock_items.get(id(T1)).is_none());
    assert_eq!(d.dock_items.len(), 0);
}

#[test]
fn select_tab_moves_selection_and_requests_redraw() {
    // Scenario: select_tab(b) on Tabs[a, b, c] selected 0 yields 1 and a
    // content-region redraw request.
    let mut d = Dock::new();
    d.set_item(id(T1), tabs(&[X, Y, Z], 0));
    d.set_item(id(X), tab("a", 1));
    d.set_item(id(Y), tab("b", 1));
    d.set_item(id(Z), tab("c", 1));
    let mut cx = new_cx();
    d.select_tab(&mut cx, id(Y));
    let (_, sel) = tabs_of(&d, T1);
    assert_eq!(sel, 1);
    assert_eq!(cx.redraws, vec![Redraw::Contents(id(T1))]);
}

#[test]
fn select_unknown_tab_changes_nothing() {
    let mut d = Dock::new();
    d.set_item(id(T1), tabs(&[X, Y, Z], 0));
    d.set_item(id(X), tab("a", 1));
    d.set_item(id(Y), tab("b", 1));
    d.set_item(id(Z), tab("c", 1));
    let mut cx = new_cx();
    d.select_tab(&mut cx, id(99));
    let (_, sel) = tabs_of(&d, T1);
    assert_eq!(sel, 0);
    assert!(cx.redraws.is_empty());
}

#[test]
fn select_tab_picks_first_matching_panel() {
    // Two panels list distinct tabs; selecting a tab of the second panel
    // leaves the first untouched.
    let mut d = two_panel_dock();
    let mut cx = new_cx();
    d.select_tab(&mut cx, id(Y));
    let (_, sel1) = tabs_of(&d, T1);
    let (_, sel2) = tabs_of(&d, T2);
    assert_eq!(sel1, 1);
    assert_eq!(sel2, 0);
}

#[test]
fn set_parent_split_rewrites_first_match() {
    let mut d = two_panel_dock();
    d.set_parent_split(id(T2), id(T1));
    match d.dock_items.get(id(ROOT)) {
        Some(DockItem::Splitter { a, b, .. }) => {
            assert_eq!(a.0, T1);
            assert_eq!(b.0, T1);
        }
        _ => panic!("root is not a splitter"),
    }
}

#[test]
fn set_parent_split_without_match_is_a_no_op() {
    let mut d = two_panel_dock();
    d.set_parent_split(id(77), id(T1));
    match d.dock_items.get(id(ROOT)) {
        Some(DockItem::Splitter { a, b, .. }) => {
            assert_eq!(a.0, T1);
            assert_eq!(b.0, T2);
        }
        _ => panic!("root is not a splitter"),
    }
}

#[test]
fn unsplit_tabs_without_parent_splitter_is_a_no_op() {
    let mut d = Dock::new();
    d.set_item(id(T1), tabs(&[X], 0));
    d.set_item(id(X), tab("only", 1));
    let mut cx = new_cx();
    d.unsplit_tabs(&mut cx, id(T1));
    assert_eq!(d.dock_items.len(), 2);
    assert!(cx.redraws.is_empty());
}

#[test]
fn unsplit_tabs_relinks_grandparent() {
    // grandparent -> splitter -> {T1, T2}; dissolving above T2 points the
    // grandparent slot at T1.
    const GP: u64 = 5;
    const SP: u64 = 6;
    const T3: u64 = 12;
    const W: u64 = 24;
    let mut d = Dock::new();
    d.set_item(id(GP), splitter(SP, T3));
    d.set_item(id(SP), splitter(T1, T2));
    d.set_item(id(T1), tabs(&[X], 0));
    d.set_item(id(T2), tabs(&[Y], 0));
    d.set_item(id(T3), tabs(&[Z, W], 0));
    d.set_item(id(X), tab("x", 1));
    d.set_item(id(Y), tab("y", 1));
    d.set_item(id(Z), tab("z", 1));
    d.set_item(id(W), tab("w", 1));
    let mut cx = new_cx();
    d.unsplit_tabs(&mut cx, id(T2));
    assert!(d.dock_items.get(id(SP)).is_none());
    assert!(d.dock_items.get(id(T2)).is_none());
    match d.dock_items.get(id(GP)) {
        Some(DockItem::Splitter { a, b, .. }) => {
            assert_eq!(a.0, T1);
            assert_eq!(b.0, T3);
        }
        _ => panic!("grandparent is not a splitter"),
    }
}

#[test]
fn close_last_tab_relinks_sibling_into_grandparent() {
    // The round trip: closing the only tab of T2 removes the Tab, the Tabs
    // node and the splitter above it, and re-links the sibling T1.
    const GP: u64 = 5;
    const SP: u64 = 6;
    const T3: u64 = 12;
    let mut d = Dock::new();
    d.set_item(id(GP), splitter(SP, T3));
    d.set_item(id(SP), splitter(T1, T2));
    d.set_item(id(T1), tabs(&[X], 0));
    d.set_item(id(T2), tabs(&[Y], 0));
    d.set_item(id(T3), tabs(&[Z], 0));
    d.set_item(id(X), tab("x", 1));
    d.set_item(id(Y), tab("y", 1));
    d.set_item(id(Z), tab("z", 1));
    let mut cx = new_cx();
    d.close_tab(&mut cx, id(Y));
    assert!(d.dock_items.get(id(Y)).is_none());
    assert!(d.dock_items.get(id(T2)).is_none());
    assert!(d.dock_items.get(id(SP)).is_none());
    match d.dock_items.get(id(GP)) {
        Some(DockItem::Splitter { a, b, .. }) => {
            assert_eq!(a.0, T1);
            assert_eq!(b.0, T3);
        }
        _ => panic!("grandparent is not a splitter"),
    }
}
