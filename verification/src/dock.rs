//! The dock container: the layout tree, the lazily materialised per-node
//! runtime state, and the structural mutation operations.
//!
//! The tree is the source of truth. Each mutation scans the tree in
//! insertion order, acts on the first matching node, keeps the tree
//! invariant, and records which regions must be repainted.

use vstd::prelude::*;

use crate::cx::{cx_same_but_redraws, Cx, Redraw};
use crate::draw::{draw_stack_view, DrawState};
use crate::geom::Rect;
use crate::idmap::{
    first_where, key_is, lemma_first_where_is, lemma_first_where_none, seq_remove_key, IdMap,
    ItemId,
};
use crate::tree::{
    close_tab_spec, id_idx, id_is, is_tab, is_tabs_at, kind_of, lemma_view_remove_key, lookup,
    sel_of, sel_ok, select_tab_spec, set_parent_split_spec, splitter_with, tabs_of, tabs_with,
    tree_view, tree_wf, unsplit_sibling, unsplit_tabs_spec, Axis, DockItem, DockItemV,
    SplitterAlign, TreeV,
};

verus! {

/// Runtime state of one tab bar: the measured content rectangle, whether the
/// content region must be repainted, and whether the current draw pass has
/// visited it.
#[derive(Clone, Copy, Debug, PartialEq, Eq, Structural)]
pub struct TabBarWrap {
    pub contents_rect: Rect,
    pub needs_redraw: bool,
    pub touched: bool,
}

/// Runtime state of one splitter instance.
#[derive(Clone, Copy, Debug, PartialEq, Eq, Structural)]
pub struct SplitterInst {
    pub axis: Axis,
    pub align: SplitterAlign,
    pub touched: bool,
}

/// A materialised content widget, named by the handle the host knows it by.
#[derive(Clone, Copy, Debug, PartialEq, Eq, Structural)]
pub struct WidgetInst {
    pub widget: u64,
}

/// Matching the pair key of a content-widget entry.
pub open spec fn pair_is(a: ItemId, b: ItemId) -> spec_fn(((ItemId, ItemId), WidgetInst)) -> bool {
    |e: ((ItemId, ItemId), WidgetInst)| e.0.0 == a && e.0.1 == b
}

/// The content-widget registry, keyed by node identifier and template kind:
/// the same template may be materialised under different tree positions.
pub struct ItemsMap {
    pub entries: Vec<((ItemId, ItemId), WidgetInst)>,
}

impl View for ItemsMap {
    type V = Seq<((ItemId, ItemId), WidgetInst)>;

    open spec fn view(&self) -> Seq<((ItemId, ItemId), WidgetInst)> {
        self.entries@
    }
}

impl ItemsMap {
    pub open spec fn keys_unique(self) -> bool {
        forall|i: int, j: int|
            0 <= i < j < self@.len() ==> (#[trigger] self@[i]).0 != (#[trigger] self@[j]).0
    }

    pub open spec fn p_idx(self, a: ItemId, b: ItemId) -> int {
        first_where(self@, pair_is(a, b))
    }

    pub open spec fn has_pair(self, a: ItemId, b: ItemId) -> bool {
        self.p_idx(a, b) >= 0
    }

    /// Some entry is keyed by the node `a`, whatever its template kind.
    pub open spec fn has_entry_id(self, a: ItemId) -> bool {
        exists|k: int| 0 <= k < self@.len() && (#[trigger] self@[k]).0.0 == a
    }

    pub fn new() -> (r: ItemsMap)
        ensures
            r@ == Seq::<((ItemId, ItemId), WidgetInst)>::empty(),
    {
        ItemsMap { entries: Vec::new() }
    }

    pub fn get(&self, a: ItemId, b: ItemId) -> (r: Option<WidgetInst>)
        ensures
            match r {
                Some(w) => self.has_pair(a, b) && w == self@[self.p_idx(a, b)].1,
                None => !self.has_pair(a, b),
            },
    {
        let n = self.entries.len();
        let mut i: usize = 0;
        while i < n
            invariant
                n == self@.len(),
                i <= n,
                forall|k: int| 0 <= k < i ==> !(pair_is(a, b)(#[trigger] self@[k])),
            decreases n - i,
        {
            if self.entries[i].0.0 == a && self.entries[i].0.1 == b {
                proof {
                    lemma_first_where_is(self@, pair_is(a, b), i as int);
                }
                return Some(self.entries[i].1);
            }
            i = i + 1;
        }
        proof {
            lemma_first_where_none(self@, pair_is(a, b));
        }
        None
    }
}

/// The dock container.
pub struct Dock {
    /// The layout tree.
    pub dock_items: IdMap<DockItem>,
    /// Template kind to content-widget blueprint handle.
    pub templates: IdMap<u64>,
    /// Per-tabs-node runtime state, pruned by the draw sweep.
    pub tab_bars: IdMap<TabBarWrap>,
    /// Per-splitter-node runtime state, pruned by the draw sweep.
    pub splitters: IdMap<SplitterInst>,
    /// Materialised content widgets.
    pub items: ItemsMap,
    /// A draw pass in progress, persisted between calls so the walk can
    /// pause and resume.
    pub draw_state: Option<DrawState>,
    /// The whole dock area was invalidated.
    pub area_redraw: bool,
    /// The next fresh content-widget handle.
    pub next_widget_handle: u64,
}

/// The tab-bar registry with the wrap under `id`, if any, marked as needing
/// a repaint of its content region.
pub open spec fn tb_mark(s: Seq<(ItemId, TabBarWrap)>, id: ItemId) -> Seq<(ItemId, TabBarWrap)> {
    let i = first_where(s, key_is(id));
    if i < 0 {
        s
    } else {
        s.update(
            i,
            (
                s[i].0,
                TabBarWrap {
                    contents_rect: s[i].1.contents_rect,
                    needs_redraw: true,
                    touched: s[i].1.touched,
                },
            ),
        )
    }
}

/// What `redraw_item` appends to the redraw log: the content region when a
/// tab bar is materialised under `id`, and the node's widgets when any are.
pub open spec fn redraw_item_log(
    tb: Seq<(ItemId, TabBarWrap)>,
    items: Seq<((ItemId, ItemId), WidgetInst)>,
    id: ItemId,
) -> Seq<Redraw> {
    let a: Seq<Redraw> = if first_where(tb, key_is::<TabBarWrap>(id)) >= 0 {
        seq![Redraw::Contents(id)]
    } else {
        Seq::empty()
    };
    let b: Seq<Redraw> = if exists|k: int| 0 <= k < items.len() && (#[trigger] items[k]).0.0 == id {
        seq![Redraw::Item(id)]
    } else {
        Seq::empty()
    };
    a + b
}

/// Everything of the dock except the tree and the tab-bar marks is
/// unchanged.
pub open spec fn same_but_tree_and_tab_bars(a: Dock, b: Dock) -> bool {
    b.templates@ == a.templates@ && b.splitters@ == a.splitters@ && b.items@ == a.items@
        && draw_stack_view(b.draw_state) == draw_stack_view(a.draw_state) && b.area_redraw
        == a.area_redraw && b.next_widget_handle == a.next_widget_handle
}

/// Everything of the dock except the tab-bar marks is unchanged.
pub open spec fn same_but_tab_bars(a: Dock, b: Dock) -> bool {
    same_but_tree_and_tab_bars(a, b) && b.dock_items@ == a.dock_items@
}

/// Everything `close_tab` does: the tree transition, the invariant kept,
/// the tab-bar mark, the redraw requests, and everything else untouched.
pub open spec fn close_tab_effects(d0: Dock, d1: Dock, c0: Cx, c1: Cx, tab_id: ItemId) -> bool {
    &&& tree_view(d1.dock_items@) == close_tab_spec(tree_view(d0.dock_items@), tab_id)
    &&& d1.templates@ == d0.templates@
    &&& d1.splitters@ == d0.splitters@
    &&& d1.items@ == d0.items@
    &&& draw_stack_view(d1.draw_state) == draw_stack_view(d0.draw_state)
    &&& d1.next_widget_handle == d0.next_widget_handle
    &&& cx_same_but_redraws(c0, c1)
    &&& tree_wf(tree_view(d0.dock_items@)) ==> tree_wf(tree_view(d1.dock_items@))
    &&& ({
        let t0 = tree_view(d0.dock_items@);
        let j = first_where(t0, tabs_with(tab_id));
        if j < 0 {
            d1.tab_bars@ == d0.tab_bars@ && c1.redraws@ == c0.redraws@ && d1.area_redraw
                == d0.area_redraw
        } else {
            let owner = t0[j].0;
            let tb = tabs_of(t0[j].1);
            let sel = sel_of(t0[j].1);
            let tb2 = tb.remove(id_idx(tb, tab_id));
            let t1 = t0.update(j, (owner, DockItemV::Tabs { tabs: tb2, selected: sel }));
            if tb2.len() == 0 {
                let t2 = seq_remove_key(t1, tab_id);
                let i2 = first_where(t2, splitter_with(owner));
                d1.area_redraw == d0.area_redraw && (if i2 < 0 {
                    d1.tab_bars@ == d0.tab_bars@ && c1.redraws@ == c0.redraws@
                } else {
                    d1.tab_bars@ == tb_mark(d0.tab_bars@, unsplit_sibling(t2, owner))
                        && c1.redraws@ == c0.redraws@ + redraw_item_log(
                        d0.tab_bars@,
                        d0.items@,
                        unsplit_sibling(t2, owner),
                    )
                })
            } else {
                let next = if sel >= tb2.len() {
                    tb2[tb2.len() - 1]
                } else {
                    tb2[sel]
                };
                let j2 = first_where(t1, tabs_with(next));
                d1.area_redraw && (if j2 < 0 {
                    d1.tab_bars@ == d0.tab_bars@ && c1.redraws@ == c0.redraws@.push(Redraw::Area)
                } else {
                    d1.tab_bars@ == tb_mark(d0.tab_bars@, t1[j2].0) && c1.redraws@
                        == c0.redraws@.push(Redraw::Contents(t1[j2].0)).push(Redraw::Area)
                })
            }
        }
    })
}

/// The first position of `x` in `v`, scanning forward.
pub fn vec_position(v: &Vec<ItemId>, x: ItemId) -> (r: Option<usize>)
    ensures
        match r {
            Some(p) => p < v@.len() && v@[p as int] == x && id_idx(v@, x) == p && v@.contains(x),
            None => !v@.contains(x) && id_idx(v@, x) == -1,
        },
{
    let n = v.len();
    let mut i: usize = 0;
    while i < n
        invariant
            n == v@.len(),
            i <= n,
            forall|k: int| 0 <= k < i ==> !(id_is(x)(#[trigger] v@[k])),
        decreases n - i,
    {
        if v[i] == x {
            proof {
                lemma_first_where_is(v@, id_is(x), i as int);
            }
            return Some(i);
        }
        i = i + 1;
    }
    proof {
        lemma_first_where_none(v@, id_is(x));
        assert(forall|k: int| 0 <= k < v@.len() ==> v@[k] != x);
    }
    None
}

/// An element-for-element copy of a list of identifiers.
pub fn copy_ids(v: &Vec<ItemId>) -> (r: Vec<ItemId>)
    ensures
        r@ == v@,
{
    let n = v.len();
    let mut r: Vec<ItemId> = Vec::new();
    let mut i: usize = 0;
    while i < n
        invariant
            n == v@.len(),
            i <= n,
            r@ == v@.subrange(0, i as int),
        decreases n - i,
    {
        r.push(v[i]);
        proof {
            assert(r@ =~= v@.subrange(0, i + 1 as int));
        }
        i = i + 1;
    }
    proof {
        assert(v@.subrange(0, n as int) =~= v@);
    }
    r
}

impl Dock {
    /// The mathematical view of the layout tree.
    pub open spec fn tree(self) -> TreeV {
        tree_view(self.dock_items@)
    }

    /// An empty dock: no tree, no templates, no runtime state, no pass in
    /// progress.
    pub fn new() -> (r: Dock)
        ensures
            r.dock_items@ == Seq::<(ItemId, DockItem)>::empty(),
            r.templates@ == Seq::<(ItemId, u64)>::empty(),
            r.tab_bars@ == Seq::<(ItemId, TabBarWrap)>::empty(),
            r.splitters@ == Seq::<(ItemId, SplitterInst)>::empty(),
            r.items@ == Seq::<((ItemId, ItemId), WidgetInst)>::empty(),
            r.draw_state matches Option::None,
            !r.area_redraw,
            r.next_widget_handle == 0,
    {
        Dock {
            dock_items: IdMap::new(),
            templates: IdMap::new(),
            tab_bars: IdMap::new(),
            splitters: IdMap::new(),
            items: ItemsMap::new(),
            draw_state: Option::None,
            area_redraw: false,
            next_widget_handle: 0,
        }
    }

    /// Install or replace a node of the layout tree. The declarative
    /// configuration step applies its description by a series of these.
    pub fn set_item(&mut self, id: ItemId, item: DockItem)
        ensures
            old(self).dock_items.has_key(id) ==> final(self).dock_items@ == old(
                self,
            ).dock_items@.update(old(self).dock_items.k_idx(id), (id, item)),
            !old(self).dock_items.has_key(id) ==> final(self).dock_items@ == old(
                self,
            ).dock_items@.push((id, item)),
            old(self).dock_items.keys_unique() ==> final(self).dock_items.keys_unique(),
            same_but_tree_and_tab_bars(*old(self), *final(self)),
            final(self).tab_bars@ == old(self).tab_bars@,
    {
        self.dock_items.insert(id, item);
    }

    /// Install or replace the content-widget blueprint for a template kind.
    pub fn install_template(&mut self, id: ItemId, blueprint: u64)
        ensures
            old(self).templates.has_key(id) ==> final(self).templates@ == old(
                self,
            ).templates@.update(old(self).templates.k_idx(id), (id, blueprint)),
            !old(self).templates.has_key(id) ==> final(self).templates@ == old(
                self,
            ).templates@.push((id, blueprint)),
            old(self).templates.keys_unique() ==> final(self).templates.keys_unique(),
            final(self).dock_items@ == old(self).dock_items@,
            final(self).tab_bars@ == old(self).tab_bars@,
            final(self).splitters@ == old(self).splitters@,
            final(self).items@ == old(self).items@,
            draw_stack_view(final(self).draw_state) == draw_stack_view(old(self).draw_state),
            final(self).area_redraw == old(self).area_redraw,
            final(self).next_widget_handle == old(self).next_widget_handle,
    {
        self.templates.insert(id, blueprint);
    }

    /// Mark the content region under `id` as needing a repaint, if a tab bar
    /// is materialised there.
    pub(crate) fn mark_tab_bar(&mut self, id: ItemId)
        ensures
            final(self).tab_bars@ == tb_mark(old(self).tab_bars@, id),
            same_but_tab_bars(*old(self), *final(self)),
    {
        let n = self.tab_bars.entries.len();
        let mut i: usize = 0;
        while i < n
            invariant
                n == self.tab_bars@.len(),
                i <= n,
                *self == *old(self),
                forall|k: int| 0 <= k < i ==> !(key_is::<TabBarWrap>(id)(#[trigger] self.tab_bars@[k])),
            decreases n - i,
        {
            if self.tab_bars.entries[i].0 == id {
                proof {
                    lemma_first_where_is(self.tab_bars@, key_is::<TabBarWrap>(id), i as int);
                }
                let w = self.tab_bars.entries[i].1;
                self.tab_bars.entries[i] = (
                    id,
                    TabBarWrap {
                        contents_rect: w.contents_rect,
                        needs_redraw: true,
                        touched: w.touched,
                    },
                );
                proof {
                    assert(final(self).tab_bars@ =~= tb_mark(old(self).tab_bars@, id));
                }
                return ;
            }
            i = i + 1;
        }
        proof {
            lemma_first_where_none(self.tab_bars@, key_is::<TabBarWrap>(id));
        }
    }

    /// Scan all splitters; the first one with `what_item` in a child slot
    /// gets that slot rewritten to `replace_item`; the `a` slot is checked
    /// first. With no match, nothing changes.
    pub fn set_parent_split(&mut self, what_item: ItemId, replace_item: ItemId)
        ensures
            tree_view(final(self).dock_items@) == set_parent_split_spec(
                tree_view(old(self).dock_items@),
                what_item,
                replace_item,
            ),
            final(self).dock_items@.len() == old(self).dock_items@.len(),
            same_but_tree_and_tab_bars(*old(self), *final(self)),
            final(self).tab_bars@ == old(self).tab_bars@,
    {
        let ghost t0 = tree_view(self.dock_items@);
        let n = self.dock_items.entries.len();
        let mut i: usize = 0;
        while i < n
            invariant
                n == self.dock_items@.len(),
                i <= n,
                *self == *old(self),
                t0 == tree_view(self.dock_items@),
                forall|k: int| 0 <= k < i ==> !(splitter_with(what_item)(#[trigger] t0[k])),
            decreases n - i,
        {
            let hit: Option<(Axis, SplitterAlign, ItemId, ItemId)> = match &self
                .dock_items
                .entries[i].1 {
                DockItem::Splitter { axis, align, a, b } => {
                    if *a == what_item || *b == what_item {
                        Some((*axis, *align, *a, *b))
                    } else {
                        None
                    }
                },
                _ => None,
            };
            if let Some((axis, align, a, b)) = hit {
                proof {
                    lemma_first_where_is(t0, splitter_with(what_item), i as int);
                }
                let key = self.dock_items.entries[i].0;
                let item = if a == what_item {
                    DockItem::Splitter { axis, align, a: replace_item, b }
                } else {
                    DockItem::Splitter { axis, align, a, b: replace_item }
                };
                self.dock_items.entries[i] = (key, item);
                proof {
                    assert(tree_view(final(self).dock_items@) =~= set_parent_split_spec(
                        t0,
                        what_item,
                        replace_item,
                    ));
                }
                return ;
            }
            proof {
                assert(!(splitter_with(what_item)(t0[i as int])));
            }
            i = i + 1;
        }
        proof {
            lemma_first_where_none(t0, splitter_with(what_item));
        }
    }

    /// Scan the tree for the first tabs node listing `tab_id`; make it the
    /// selected tab and ask for its content region to be repainted. With no
    /// match, nothing changes and nothing is logged.
    pub fn select_tab(&mut self, cx: &mut Cx, tab_id: ItemId)
        ensures
            tree_view(final(self).dock_items@) == select_tab_spec(
                tree_view(old(self).dock_items@),
                tab_id,
            ),
            same_but_tree_and_tab_bars(*old(self), *final(self)),
            cx_same_but_redraws(*old(cx), *final(cx)),
            tree_wf(tree_view(old(self).dock_items@)) ==> tree_wf(
                tree_view(final(self).dock_items@),
            ),
            ({
                let t0 = tree_view(old(self).dock_items@);
                let j = first_where(t0, tabs_with(tab_id));
                if j < 0 {
                    final(self).tab_bars@ == old(self).tab_bars@
                        && final(cx).redraws@ == old(cx).redraws@
                } else {
                    final(self).tab_bars@ == tb_mark(old(self).tab_bars@, t0[j].0)
                        && final(cx).redraws@ == old(cx).redraws@.push(Redraw::Contents(t0[j].0))
                }
            }),
    {
        let ghost t0 = tree_view(self.dock_items@);
        let n = self.dock_items.entries.len();
        let mut i: usize = 0;
        while i < n
            invariant
                n == self.dock_items@.len(),
                i <= n,
                *self == *old(self),
                *cx == *old(cx),
                t0 == tree_view(self.dock_items@),
                forall|k: int| 0 <= k < i ==> !(tabs_with(tab_id)(#[trigger] t0[k])),
            decreases n - i,
        {
            let hit: Option<(usize, Vec<ItemId>)> = match &self.dock_items.entries[i].1 {
                DockItem::Tabs { tabs, .. } => {
                    match vec_position(tabs, tab_id) {
                        Some(p) => Some((p, copy_ids(tabs))),
                        None => None,
                    }
                },
                _ => None,
            };
            if let Some((pos, tabs)) = hit {
                proof {
                    lemma_first_where_is(t0, tabs_with(tab_id), i as int);
                }
                let owner = self.dock_items.entries[i].0;
                self.dock_items.entries[i] = (owner, DockItem::Tabs { tabs, selected: pos });
                proof {
                    assert(tree_view(self.dock_items@) =~= select_tab_spec(t0, tab_id));
                    if tree_wf(t0) {
                        crate::laws::lemma_select_tab_wf(t0, tab_id);
                    }
                }
                self.mark_tab_bar(owner);
                cx.redraws.push(Redraw::Contents(owner));
                return ;
            }
            proof {
                assert(!(tabs_with(tab_id)(t0[i as int])));
            }
            i = i + 1;
        }
        proof {
            lemma_first_where_none(t0, tabs_with(tab_id));
        }
    }

    /// Ask for the whole dock area to be repainted.
    pub fn redraw(&mut self, cx: &mut Cx)
        ensures
            final(self).dock_items@ == old(self).dock_items@,
            final(self).templates@ == old(self).templates@,
            final(self).tab_bars@ == old(self).tab_bars@,
            final(self).splitters@ == old(self).splitters@,
            final(self).items@ == old(self).items@,
            draw_stack_view(final(self).draw_state) == draw_stack_view(old(self).draw_state),
            final(self).next_widget_handle == old(self).next_widget_handle,
            final(self).area_redraw,
            cx_same_but_redraws(*old(cx), *final(cx)),
            final(cx).redraws@ == old(cx).redraws@.push(Redraw::Area),
    {
        self.area_redraw = true;
        cx.redraws.push(Redraw::Area);
    }

    /// Ask for the regions materialised under `item_id` to be repainted: the
    /// tab-bar content region if one exists there, and the node's widgets if
    /// any are materialised.
    pub fn redraw_item(&mut self, cx: &mut Cx, item_id: ItemId)
        ensures
            final(self).tab_bars@ == tb_mark(old(self).tab_bars@, item_id),
            same_but_tab_bars(*old(self), *final(self)),
            cx_same_but_redraws(*old(cx), *final(cx)),
            final(cx).redraws@ == old(cx).redraws@ + redraw_item_log(
                old(self).tab_bars@,
                old(self).items@,
                item_id,
            ),
    {
        let has_tab_bar = match self.tab_bars.get(item_id) {
            Some(_) => true,
            None => false,
        };
        if has_tab_bar {
            self.mark_tab_bar(item_id);
            cx.redraws.push(Redraw::Contents(item_id));
        }
        let n = self.items.entries.len();
        let mut i: usize = 0;
        let mut found = false;
        while i < n
            invariant
                n == self.items@.len(),
                i <= n,
                *self == *final(self),
                found <==> (exists|k: int| 0 <= k < i && (#[trigger] self.items@[k]).0.0 == item_id),
            decreases n - i,
        {
            if self.items.entries[i].0.0 == item_id {
                found = true;
            }
            i = i + 1;
        }
        if found {
            cx.redraws.push(Redraw::Item(item_id));
        }
        proof {
            if !has_tab_bar {
                assert(final(self).tab_bars@ =~= tb_mark(old(self).tab_bars@, item_id));
            }
            assert(final(cx).redraws@ =~= old(cx).redraws@ + redraw_item_log(
                old(self).tab_bars@,
                old(self).items@,
                item_id,
            ));
        }
    }

    /// Dissolve the splitter that has `tabs_id` as a child: re-link the
    /// sibling child into whatever splitter pointed at the dissolved one,
    /// drop both the splitter and the `tabs_id` node, and ask for the
    /// sibling's regions to be repainted. With no such splitter, nothing
    /// changes.
    pub fn unsplit_tabs(&mut self, cx: &mut Cx, tabs_id: ItemId)
        ensures
            tree_view(final(self).dock_items@) == unsplit_tabs_spec(
                tree_view(old(self).dock_items@),
                tabs_id,
            ),
            same_but_tree_and_tab_bars(*old(self), *final(self)),
            cx_same_but_redraws(*old(cx), *final(cx)),
            (tree_wf(tree_view(old(self).dock_items@)) && is_tabs_at(
                tree_view(old(self).dock_items@),
                tabs_id,
            )) ==> tree_wf(tree_view(final(self).dock_items@)),
            ({
                let t0 = tree_view(old(self).dock_items@);
                let i = first_where(t0, splitter_with(tabs_id));
                if i < 0 {
                    final(self).tab_bars@ == old(self).tab_bars@
                        && final(cx).redraws@ == old(cx).redraws@
                } else {
                    final(self).tab_bars@ == tb_mark(
                        old(self).tab_bars@,
                        unsplit_sibling(t0, tabs_id),
                    ) && final(cx).redraws@ == old(cx).redraws@ + redraw_item_log(
                        old(self).tab_bars@,
                        old(self).items@,
                        unsplit_sibling(t0, tabs_id),
                    )
                }
            }),
    {
        let ghost t0 = tree_view(self.dock_items@);
        let n = self.dock_items.entries.len();
        let mut i: usize = 0;
        while i < n
            invariant
                n == self.dock_items@.len(),
                i <= n,
                *self == *old(self),
                *cx == *old(cx),
                t0 == tree_view(self.dock_items@),
                forall|k: int| 0 <= k < i ==> !(splitter_with(tabs_id)(#[trigger] t0[k])),
            decreases n - i,
        {
            let hit: Option<ItemId> = match &self.dock_items.entries[i].1 {
                DockItem::Splitter { a, b, .. } => {
                    if *a == tabs_id {
                        Some(*b)
                    } else if *b == tabs_id {
                        Some(*a)
                    } else {
                        None
                    }
                },
                _ => None,
            };
            if let Some(sib) = hit {
                proof {
                    lemma_first_where_is(t0, splitter_with(tabs_id), i as int);
                    assert(sib == unsplit_sibling(t0, tabs_id));
                }
                let splitter_id = self.dock_items.entries[i].0;
                self.set_parent_split(splitter_id, sib);
                proof {
                    lemma_view_remove_key(self.dock_items@, splitter_id);
                }
                self.dock_items.remove(splitter_id);
                proof {
                    lemma_view_remove_key(self.dock_items@, tabs_id);
                }
                self.dock_items.remove(tabs_id);
                self.redraw_item(cx, sib);
                proof {
                    if tree_wf(t0) && is_tabs_at(t0, tabs_id) {
                        crate::laws::lemma_unsplit_tabs_full_wf(t0, tabs_id);
                    }
                }
                return ;
            }
            proof {
                assert(!(splitter_with(tabs_id)(t0[i as int])));
            }
            i = i + 1;
        }
        proof {
            lemma_first_where_none(t0, splitter_with(tabs_id));
        }
    }

    /// Close the tab `tab_id`: the first tabs node listing it loses that
    /// entry and the `Tab` node itself is removed from the tree. If tabs
    /// remain, the selection is clamped to the new length and the whole dock
    /// area is invalidated; if none remain, the owning tabs node is
    /// dissolved through `unsplit_tabs`. A `tab_id` listed nowhere changes
    /// nothing.
    pub fn close_tab(&mut self, cx: &mut Cx, tab_id: ItemId)
        requires
            sel_ok(tree_view(old(self).dock_items@)),
        ensures
            close_tab_effects(*old(self), *final(self), *old(cx), *final(cx), tab_id),
    {
        let ghost t0 = tree_view(self.dock_items@);
        let n = self.dock_items.entries.len();
        let mut i: usize = 0;
        while i < n
            invariant
                n == self.dock_items@.len(),
                i <= n,
                *self == *old(self),
                *cx == *old(cx),
                t0 == tree_view(self.dock_items@),
                sel_ok(t0),
                forall|k: int| 0 <= k < i ==> !(tabs_with(tab_id)(#[trigger] t0[k])),
            decreases n - i,
        {
            let hit: Option<(usize, Vec<ItemId>, usize)> = match &self.dock_items.entries[i].1 {
                DockItem::Tabs { tabs, selected } => {
                    match vec_position(tabs, tab_id) {
                        Some(p) => Some((p, copy_ids(tabs), *selected)),
                        None => None,
                    }
                },
                _ => None,
            };
            if let Some((pos, tabs_in, sel)) = hit {
                proof {
                    lemma_first_where_is(t0, tabs_with(tab_id), i as int);
                }
                let mut tabs = tabs_in;
                let owner = self.dock_items.entries[i].0;
                tabs.remove(pos);
                let tabs_len = tabs.len();
                let next: ItemId = if tabs_len == 0 {
                    tab_id
                } else if sel >= tabs_len {
                    tabs[sel - 1]
                } else {
                    tabs[sel]
                };
                let ghost tb2 = tabs@;
                self.dock_items.entries[i] = (owner, DockItem::Tabs { tabs, selected: sel });
                let ghost t1 = t0.update(
                    i as int,
                    (owner, DockItemV::Tabs { tabs: tb2, selected: sel as int }),
                );
                proof {
                    assert(tree_view(self.dock_items@) =~= t1);
                }
                if tabs_len == 0 {
                    proof {
                        lemma_view_remove_key(self.dock_items@, tab_id);
                    }
                    self.dock_items.remove(tab_id);
                    self.unsplit_tabs(cx, owner);
                    proof {
                        lemma_view_remove_key(self.dock_items@, owner);
                    }
                    self.dock_items.remove(owner);
                } else {
                    self.select_tab(cx, next);
                    proof {
                        lemma_view_remove_key(self.dock_items@, tab_id);
                    }
                    self.dock_items.remove(tab_id);
                    self.area_redraw = true;
                    cx.redraws.push(Redraw::Area);
                }
                proof {
                    if tree_wf(t0) {
                        crate::laws::lemma_close_tab_wf(t0, tab_id);
                    }
                }
                return ;
            }
            proof {
                assert(!(tabs_with(tab_id)(t0[i as int])));
            }
            i = i + 1;
        }
        proof {
            lemma_first_where_none(t0, tabs_with(tab_id));
        }
    }
}


impl Dock {
    /// A one-segment widget path resolves: the node is a tab leaf whose
    /// content widget has been materialised.
    pub open spec fn find_widget_hit(self, p0: ItemId) -> bool {
        let t = tree_view(self.dock_items@);
        (lookup(t, p0) matches Option::Some(x) && is_tab(x) && self.items.has_pair(
            p0,
            kind_of(x),
        ))
    }

    /// The widget handle a one-segment path resolves to.
    pub open spec fn found_widget(self, p0: ItemId) -> u64 {
        let t = tree_view(self.dock_items@);
        self.items@[self.items.p_idx(p0, kind_of(lookup(t, p0).unwrap()))].1.widget
    }

    /// Resolve a dotted identifier path. A single segment naming a tab leaf
    /// yields its materialised content widget; deeper segments resolve
    /// inside content widgets, which this model treats as opaque, so they
    /// yield nothing.
    pub fn find_widgets(&self, path: &Vec<ItemId>, results: &mut Vec<u64>)
        ensures
            (path@.len() == 1 && self.find_widget_hit(path@[0])) ==> final(results)@ == old(
                results,
            )@.push(self.found_widget(path@[0])),
            !(path@.len() == 1 && self.find_widget_hit(path@[0])) ==> final(results)@ == old(
                results,
            )@,
    {
        if path.len() == 1 {
            let p0 = path[0];
            let hit: Option<ItemId> = match self.node(p0) {
                Option::Some(DockItem::Tab { kind, .. }) => Some(*kind),
                _ => None,
            };
            match hit {
                Option::Some(kind) => {
                    match self.items.get(p0, kind) {
                        Option::Some(w) => {
                            results.push(w.widget);
                        },
                        Option::None => {},
                    }
                },
                Option::None => {},
            }
        }
    }
}

} // verus!
