//! The resumable draw traversal: an explicit stack of work frames drives a
//! depth-first walk of the dock tree, so the walk can pause between frames
//! when the hosting layout engine withholds a region and resume on a later
//! pass from the persisted stack.

use vstd::prelude::*;

use crate::dock::{pair_is, Dock, SplitterInst, TabBarWrap, WidgetInst};
use crate::geom::{Rect, Vec2};
use crate::idmap::{
    first_where, key_is, lemma_first_where, lemma_first_where_found, lemma_first_where_is,
    lemma_first_where_none, IdMap, ItemId,
};
use crate::tree::{
    align_of, axis_of, child_b, is_splitter, is_tab, is_tab_at, kind_of, lemma_view_key_idx,
    lookup, name_of, sel_of, sel_ok, tabs_of, tree_view, Axis, DockItem, DockItemV,
    SplitterAlign, TreeV,
};

verus! {

/// The identifier of the well-known tree root.
pub const ROOT_ID: u64 = 0;

pub open spec fn root_id() -> ItemId {
    ItemId(ROOT_ID)
}

/// One drawing command issued to the retained layout engine.
#[derive(Clone, Debug, PartialEq, Eq)]
pub enum DrawOp {
    BeginDock,
    BeginSplitter { id: ItemId, axis: Axis, align: SplitterAlign },
    MiddleSplitter { id: ItemId },
    EndSplitter { id: ItemId },
    BeginTabBar { id: ItemId, selected: usize },
    TabLabel { id: ItemId, tab_id: ItemId, name: String },
    EndTabBar { id: ItemId },
    BeginContents { id: ItemId },
    DrawWidget { id: ItemId, kind: ItemId, widget: u64 },
    EndContents { id: ItemId },
    SplitterCorners { id: ItemId },
    CornerQuad { rect: Rect, flip_x: bool, flip_y: bool },
    EndDock,
}

/// The retained drawing context, reduced to what the dock reads and writes:
/// the log of issued commands and the rectangle the layout engine measured
/// for the region being closed.
pub struct Cx2d {
    pub ops: Vec<DrawOp>,
    pub turtle_rect: Rect,
}

impl Cx2d {
    pub fn new(turtle_rect: Rect) -> (r: Cx2d)
        ensures
            r.ops@ == Seq::<DrawOp>::empty(),
            r.turtle_rect == turtle_rect,
    {
        Cx2d { ops: Vec::new(), turtle_rect }
    }
}

/// One pending frame of the draw walk.
#[derive(Clone, Copy, Debug, PartialEq, Eq, Structural)]
pub enum DrawStackItem {
    /// A reference that resolved to no node: drawn as nothing.
    Invalid,
    /// Begin a splitter and descend into its first child.
    SplitLeft { id: ItemId },
    /// Mark the splitter midpoint and descend into its second child.
    SplitRight { id: ItemId },
    /// Close out the splitter's layout.
    SplitEnd { id: ItemId },
    /// Begin a tab bar.
    Tabs { id: ItemId },
    /// Draw the label of the tab at `index`, or close the bar past the end.
    TabLabel { id: ItemId, index: usize },
    /// Draw a tab leaf's content widget.
    Tab { id: ItemId },
    /// Close out a tab content region.
    TabContent { id: ItemId },
}

impl DrawStackItem {
    /// The frame that starts drawing the node `dock_item`, looked up under
    /// `id`: a missing node draws as nothing.
    pub fn from_dock_item(id: ItemId, dock_item: Option<&DockItem>) -> (r: DrawStackItem)
        ensures
            r == match dock_item {
                Option::None => DrawStackItem::Invalid,
                Option::Some(item) => match item {
                    DockItem::Splitter { .. } => DrawStackItem::SplitLeft { id },
                    DockItem::Tabs { .. } => DrawStackItem::Tabs { id },
                    DockItem::Tab { .. } => DrawStackItem::Tab { id },
                },
            },
    {
        match dock_item {
            Option::None => DrawStackItem::Invalid,
            Option::Some(DockItem::Splitter { .. }) => DrawStackItem::SplitLeft { id },
            Option::Some(DockItem::Tabs { .. }) => DrawStackItem::Tabs { id },
            Option::Some(DockItem::Tab { .. }) => DrawStackItem::Tab { id },
        }
    }
}

/// The persisted state of a draw pass in progress.
#[derive(Clone, Debug)]
pub struct DrawState {
    pub stack: Vec<DrawStackItem>,
}

/// The stack of a paused or running pass, if one is in progress.
pub open spec fn draw_stack_view(d: Option<DrawState>) -> Option<Seq<DrawStackItem>> {
    match d {
        Option::None => Option::None,
        Option::Some(st) => Option::Some(st.stack@),
    }
}

/// One more than the number of tree entries: enough fuel to cross any
/// acyclic tree.
pub open spec fn fuel_of(t: TreeV) -> nat {
    t.len() + 1
}

/// Every chain of splitter children starting at `id` is shorter than
/// `fuel`: the subtree under `id` is acyclic and bounded.
pub open spec fn depth_ok(t: TreeV, id: ItemId, fuel: nat) -> bool
    decreases fuel,
{
    fuel > 0 && match lookup(t, id) {
        Option::Some(DockItemV::Splitter { a, b, .. }) => depth_ok(t, a, (fuel - 1) as nat)
            && depth_ok(t, b, (fuel - 1) as nat),
        _ => true,
    }
}

/// The tabs nodes the draw walk visits below `id`.
pub open spec fn tabs_reach(t: TreeV, id: ItemId, fuel: nat) -> Set<ItemId>
    decreases fuel,
{
    if fuel == 0 {
        Set::empty()
    } else {
        match lookup(t, id) {
            Option::Some(DockItemV::Splitter { a, b, .. }) => tabs_reach(
                t,
                a,
                (fuel - 1) as nat,
            ).union(tabs_reach(t, b, (fuel - 1) as nat)),
            Option::Some(DockItemV::Tabs { .. }) => set![id],
            _ => Set::empty(),
        }
    }
}

/// The splitter nodes the draw walk visits below `id`.
pub open spec fn split_reach(t: TreeV, id: ItemId, fuel: nat) -> Set<ItemId>
    decreases fuel,
{
    if fuel == 0 {
        Set::empty()
    } else {
        match lookup(t, id) {
            Option::Some(DockItemV::Splitter { a, b, .. }) => set![id].union(
                split_reach(t, a, (fuel - 1) as nat).union(split_reach(t, b, (fuel - 1) as nat)),
            ),
            _ => Set::empty(),
        }
    }
}

/// More fuel never hurts.
pub proof fn lemma_depth_ok_mono(t: TreeV, id: ItemId, f1: nat, f2: nat)
    requires
        depth_ok(t, id, f1),
        f1 <= f2,
    ensures
        depth_ok(t, id, f2),
    decreases f1,
{
    match lookup(t, id) {
        Option::Some(DockItemV::Splitter { a, b, .. }) => {
            lemma_depth_ok_mono(t, a, (f1 - 1) as nat, (f2 - 1) as nat);
            lemma_depth_ok_mono(t, b, (f1 - 1) as nat, (f2 - 1) as nat);
        },
        _ => {},
    }
}

/// Once the fuel covers the depth, the visited sets no longer depend on it.
pub proof fn lemma_tabs_reach_mono(t: TreeV, id: ItemId, f1: nat, f2: nat)
    requires
        depth_ok(t, id, f1),
        f1 <= f2,
    ensures
        tabs_reach(t, id, f2) == tabs_reach(t, id, f1),
        split_reach(t, id, f2) == split_reach(t, id, f1),
    decreases f1,
{
    match lookup(t, id) {
        Option::Some(DockItemV::Splitter { a, b, .. }) => {
            lemma_tabs_reach_mono(t, a, (f1 - 1) as nat, (f2 - 1) as nat);
            lemma_tabs_reach_mono(t, b, (f1 - 1) as nat, (f2 - 1) as nat);
            assert(tabs_reach(t, id, f2) =~= tabs_reach(t, id, f1));
            assert(split_reach(t, id, f2) =~= split_reach(t, id, f1));
        },
        _ => {},
    }
}

/// The number of draw steps needed for the subtree under `id`: three per
/// splitter plus its children, one per tab label plus four for a tabs
/// node's own frames, one for anything else.
pub open spec fn node_weight(t: TreeV, id: ItemId, fuel: nat) -> nat
    decreases fuel,
{
    if fuel == 0 {
        1
    } else {
        match lookup(t, id) {
            Option::Some(DockItemV::Splitter { a, b, .. }) => 3 + node_weight(
                t,
                a,
                (fuel - 1) as nat,
            ) + node_weight(t, b, (fuel - 1) as nat),
            Option::Some(DockItemV::Tabs { tabs, .. }) => tabs.len() + 4,
            _ => 1,
        }
    }
}

/// Once the fuel covers the depth, the weight no longer depends on it.
pub proof fn lemma_node_weight_mono(t: TreeV, id: ItemId, f1: nat, f2: nat)
    requires
        depth_ok(t, id, f1),
        f1 <= f2,
    ensures
        node_weight(t, id, f2) == node_weight(t, id, f1),
    decreases f1,
{
    match lookup(t, id) {
        Option::Some(DockItemV::Splitter { a, b, .. }) => {
            lemma_node_weight_mono(t, a, (f1 - 1) as nat, (f2 - 1) as nat);
            lemma_node_weight_mono(t, b, (f1 - 1) as nat, (f2 - 1) as nat);
        },
        _ => {},
    }
}

/// The number of draw steps a pending frame still costs, its own included.
pub open spec fn frame_weight(t: TreeV, f: DrawStackItem) -> nat {
    match f {
        DrawStackItem::SplitLeft { id } => node_weight(t, id, fuel_of(t)),
        DrawStackItem::SplitRight { id } => match lookup(t, id) {
            Option::Some(DockItemV::Splitter { b, .. }) => 2 + node_weight(t, b, fuel_of(t)),
            _ => 1,
        },
        DrawStackItem::Tabs { id } => node_weight(t, id, fuel_of(t)),
        DrawStackItem::TabLabel { id, index } => match lookup(t, id) {
            Option::Some(DockItemV::Tabs { tabs, .. }) => (if index <= tabs.len() {
                (tabs.len() - index) as nat
            } else {
                0
            }) + 3,
            _ => 1,
        },
        _ => 1,
    }
}

/// The number of draw steps a whole pending stack still costs.
pub open spec fn stack_weight(t: TreeV, st: Seq<DrawStackItem>) -> nat
    decreases st.len(),
{
    if st.len() == 0 {
        0
    } else {
        frame_weight(t, st.last()) + stack_weight(t, st.drop_last())
    }
}

/// Pushing one frame adds exactly its cost to what is pending.
pub proof fn lemma_stack_weight_push(t: TreeV, st: Seq<DrawStackItem>, f: DrawStackItem)
    ensures
        stack_weight(t, st.push(f)) == frame_weight(t, f) + stack_weight(t, st),
{
    assert(st.push(f).last() == f);
    assert(st.push(f).drop_last() =~= st);
    assert(st.push(f).drop_last() == st);
}

/// Every pending frame costs at least its own step.
pub proof fn lemma_frame_weight_pos(t: TreeV, f: DrawStackItem)
    ensures
        frame_weight(t, f) >= 1,
{
}

/// The tabs nodes a pending frame will still visit.
pub open spec fn frame_tabs(t: TreeV, f: DrawStackItem) -> Set<ItemId> {
    match f {
        DrawStackItem::SplitLeft { id } => tabs_reach(t, id, fuel_of(t)),
        DrawStackItem::SplitRight { id } => match lookup(t, id) {
            Option::Some(DockItemV::Splitter { b, .. }) => tabs_reach(t, b, fuel_of(t)),
            _ => Set::empty(),
        },
        DrawStackItem::Tabs { id } => set![id],
        _ => Set::empty(),
    }
}

/// The splitter nodes a pending frame will still visit.
pub open spec fn frame_splits(t: TreeV, f: DrawStackItem) -> Set<ItemId> {
    match f {
        DrawStackItem::SplitLeft { id } => split_reach(t, id, fuel_of(t)),
        DrawStackItem::SplitRight { id } => match lookup(t, id) {
            Option::Some(DockItemV::Splitter { b, .. }) => split_reach(t, b, fuel_of(t)),
            _ => Set::empty(),
        },
        _ => Set::empty(),
    }
}

/// What a whole pending stack will still visit.
pub open spec fn stack_tabs(t: TreeV, st: Seq<DrawStackItem>) -> Set<ItemId>
    decreases st.len(),
{
    if st.len() == 0 {
        Set::empty()
    } else {
        frame_tabs(t, st.last()).union(stack_tabs(t, st.drop_last()))
    }
}

pub open spec fn stack_splits(t: TreeV, st: Seq<DrawStackItem>) -> Set<ItemId>
    decreases st.len(),
{
    if st.len() == 0 {
        Set::empty()
    } else {
        frame_splits(t, st.last()).union(stack_splits(t, st.drop_last()))
    }
}

/// A pending frame is consistent with the tree: its node still has the
/// shape that put the frame on the stack, and enough fuel covers it.
pub open spec fn frame_ok(t: TreeV, f: DrawStackItem) -> bool {
    match f {
        DrawStackItem::SplitLeft { id } => is_splitter_at(t, id) && depth_ok(t, id, fuel_of(t)),
        DrawStackItem::SplitRight { id } => is_splitter_at(t, id) && depth_ok(
            t,
            child_b_at(t, id),
            fuel_of(t),
        ),
        DrawStackItem::SplitEnd { .. } => true,
        DrawStackItem::Tabs { id } => is_tabs_node_at(t, id),
        DrawStackItem::TabLabel { id, .. } => is_tabs_node_at(t, id),
        _ => true,
    }
}

pub open spec fn is_splitter_at(t: TreeV, id: ItemId) -> bool {
    match lookup(t, id) {
        Option::Some(x) => is_splitter(x),
        Option::None => false,
    }
}

pub open spec fn child_b_at(t: TreeV, id: ItemId) -> ItemId {
    match lookup(t, id) {
        Option::Some(x) => child_b(x),
        Option::None => ItemId(0),
    }
}

pub open spec fn is_tabs_node_at(t: TreeV, id: ItemId) -> bool {
    match lookup(t, id) {
        Option::Some(x) => x matches DockItemV::Tabs { .. },
        Option::None => false,
    }
}

/// The starting frame for a node visits exactly what the node reaches.
pub proof fn lemma_start_frame(t: TreeV, id: ItemId, f: DrawStackItem)
    requires
        f == match lookup(t, id) {
            Option::None => DrawStackItem::Invalid,
            Option::Some(item) => match item {
                DockItemV::Splitter { .. } => DrawStackItem::SplitLeft { id },
                DockItemV::Tabs { .. } => DrawStackItem::Tabs { id },
                DockItemV::Tab { .. } => DrawStackItem::Tab { id },
            },
        },
    ensures
        frame_tabs(t, f) == tabs_reach(t, id, fuel_of(t)),
        frame_splits(t, f) == split_reach(t, id, fuel_of(t)),
        frame_weight(t, f) == node_weight(t, id, fuel_of(t)),
{
    match lookup(t, id) {
        Option::Some(DockItemV::Tabs { .. }) => {
            assert(frame_tabs(t, f) =~= tabs_reach(t, id, fuel_of(t)));
            assert(frame_splits(t, f) =~= split_reach(t, id, fuel_of(t)));
        },
        Option::Some(DockItemV::Tab { .. }) => {
            assert(frame_tabs(t, f) =~= tabs_reach(t, id, fuel_of(t)));
            assert(frame_splits(t, f) =~= split_reach(t, id, fuel_of(t)));
        },
        Option::None => {
            assert(frame_tabs(t, f) =~= tabs_reach(t, id, fuel_of(t)));
            assert(frame_splits(t, f) =~= split_reach(t, id, fuel_of(t)));
        },
        _ => {},
    }
}

/// Pushing one frame adds exactly its contribution to what is pending.
pub proof fn lemma_stack_push(t: TreeV, st: Seq<DrawStackItem>, f: DrawStackItem)
    ensures
        stack_tabs(t, st.push(f)) == frame_tabs(t, f).union(stack_tabs(t, st)),
        stack_splits(t, st.push(f)) == frame_splits(t, f).union(stack_splits(t, st)),
{
    assert(st.push(f).last() == f);
    assert(st.push(f).drop_last() =~= st);
    assert(st.push(f).drop_last() == st);
}

/// The identifiers whose tab bars the current pass has visited.
pub open spec fn touched_tabs(s: Seq<(ItemId, TabBarWrap)>) -> Set<ItemId> {
    Set::new(
        |id: ItemId|
            exists|k: int| 0 <= k < s.len() && (#[trigger] s[k]).0 == id && s[k].1.touched,
    )
}

/// The identifiers whose splitter instances the current pass has visited.
pub open spec fn touched_splits(s: Seq<(ItemId, SplitterInst)>) -> Set<ItemId> {
    Set::new(
        |id: ItemId|
            exists|k: int| 0 <= k < s.len() && (#[trigger] s[k]).0 == id && s[k].1.touched,
    )
}

/// A content-widget entry a draw pass may add: its node is a tab leaf
/// whose kind names the entry's template kind, and that template is
/// installed. A tab whose kind has no installed template adds no entry.
pub open spec fn item_entry_from_tab(
    t: TreeV,
    templates: IdMap<u64>,
    e: ((ItemId, ItemId), WidgetInst),
) -> bool {
    is_tab_at(t, e.0.0) && kind_of(lookup(t, e.0.0).unwrap()) == e.0.1 && templates.has_key(e.0.1)
}

/// Whether the content region under `id` is drawn when its bar closes:
/// the bar's pending mark, or a whole-area invalidation; a bar that was
/// never materialised follows the area flag alone.
pub open spec fn content_redrawing(s: Seq<(ItemId, TabBarWrap)>, id: ItemId, area: bool) -> bool {
    let k = first_where(s, key_is::<TabBarWrap>(id));
    if k >= 0 {
        s[k].1.needs_redraw || area
    } else {
        area
    }
}

pub open spec fn no_touched_tabs(s: Seq<(ItemId, TabBarWrap)>) -> bool {
    forall|k: int| 0 <= k < s.len() ==> !(#[trigger] s[k]).1.touched
}

pub open spec fn no_touched_splits(s: Seq<(ItemId, SplitterInst)>) -> bool {
    forall|k: int| 0 <= k < s.len() ==> !(#[trigger] s[k]).1.touched
}

impl Dock {
    /// The registries hold each key at most once.
    pub open spec fn regs_unique(self) -> bool {
        self.tab_bars.keys_unique() && self.splitters.keys_unique() && self.items.keys_unique()
    }

    /// Resolve a node of the tree.
    pub fn node(&self, id: ItemId) -> (r: Option<&DockItem>)
        ensures
            match r {
                Option::Some(it) => lookup(tree_view(self.dock_items@), id) == Option::Some(it@),
                Option::None => lookup(tree_view(self.dock_items@), id) matches Option::None,
            },
    {
        let r = self.dock_items.get(id);
        proof {
            lemma_view_key_idx(self.dock_items.entries@, id);
            lemma_first_where(tree_view(self.dock_items@), key_is::<DockItemV>(id));
            lemma_first_where(self.dock_items@, key_is::<DockItem>(id));
        }
        r
    }

    /// Visit the tab bar under `id`: create it on first encounter, and mark
    /// it visited for the running pass.
    fn touch_tab_bar(&mut self, id: ItemId)
        requires
            old(self).tab_bars.keys_unique(),
        ensures
            final(self).tab_bars.keys_unique(),
            touched_tabs(final(self).tab_bars@) == touched_tabs(old(self).tab_bars@).insert(id),
            final(self).dock_items@ == old(self).dock_items@,
            final(self).templates@ == old(self).templates@,
            final(self).splitters@ == old(self).splitters@,
            final(self).items@ == old(self).items@,
            final(self).draw_state == old(self).draw_state,
            final(self).area_redraw == old(self).area_redraw,
            final(self).next_widget_handle == old(self).next_widget_handle,
    {
        let n = self.tab_bars.entries.len();
        let mut i: usize = 0;
        while i < n
            invariant
                n == self.tab_bars@.len(),
                i <= n,
                *self == *old(self),
                old(self).tab_bars.keys_unique(),
                forall|k: int| 0 <= k < i ==> (#[trigger] self.tab_bars@[k]).0 != id,
            decreases n - i,
        {
            if self.tab_bars.entries[i].0 == id {
                let w = self.tab_bars.entries[i].1;
                self.tab_bars.entries[i] = (
                    id,
                    TabBarWrap {
                        contents_rect: w.contents_rect,
                        needs_redraw: w.needs_redraw,
                        touched: true,
                    },
                );
                proof {
                    let o = old(self).tab_bars@;
                    let nn = final(self).tab_bars@;
                    assert(nn == o.update(i as int, (id, TabBarWrap {
                        contents_rect: w.contents_rect,
                        needs_redraw: w.needs_redraw,
                        touched: true,
                    })));
                    assert(forall|k: int| 0 <= k < nn.len() ==> (#[trigger] nn[k]).0 == o[k].0);
                    assert forall|a: int, b: int|
                        0 <= a < b < nn.len() implies (#[trigger] nn[a]).0 != (
                    #[trigger] nn[b]).0 by {
                        assert(nn[a].0 == o[a].0);
                        assert(nn[b].0 == o[b].0);
                        assert(o[a].0 != o[b].0);
                    }
                    assert(nn[i as int].0 == id && nn[i as int].1.touched);
                    lemma_touched_tabs_update(o, nn, id);
                }
                return ;
            }
            i = i + 1;
        }
        self.tab_bars.entries.push(
            (
                id,
                TabBarWrap {
                    contents_rect: Rect {
                        pos: crate::geom::Vec2 { x: 0, y: 0 },
                        size: crate::geom::Vec2 { x: 0, y: 0 },
                    },
                    needs_redraw: true,
                    touched: true,
                },
            ),
        );
        proof {
            let o = old(self).tab_bars@;
            let nn = final(self).tab_bars@;
            assert forall|a: int, b: int|
                0 <= a < b < nn.len() implies (#[trigger] nn[a]).0 != (#[trigger] nn[b]).0 by {
                if b == nn.len() - 1 {
                    assert(o[a].0 != id);
                }
            }
            assert(nn.len() == o.len() + 1);
            assert(nn[o.len() as int].0 == id && nn[o.len() as int].1.touched);
            assert forall|k: int|
                0 <= k < nn.len() implies ((#[trigger] nn[k]).0 == id && nn[k].1.touched && (k
                >= o.len() || o[k].0 == id)) || (k < o.len() && nn[k] == o[k]) by {
                if k < o.len() {
                    assert(nn[k] == o[k]);
                }
            }
            lemma_touched_tabs_update(o, nn, id);
        }
    }

    /// Visit the splitter instance under `id`: create it on first encounter,
    /// adopt the node's axis and alignment, and mark it visited.
    fn touch_splitter(&mut self, id: ItemId, axis: Axis, align: SplitterAlign)
        requires
            old(self).splitters.keys_unique(),
        ensures
            final(self).splitters.keys_unique(),
            touched_splits(final(self).splitters@) == touched_splits(
                old(self).splitters@,
            ).insert(id),
            final(self).dock_items@ == old(self).dock_items@,
            final(self).templates@ == old(self).templates@,
            final(self).tab_bars@ == old(self).tab_bars@,
            final(self).items@ == old(self).items@,
            final(self).draw_state == old(self).draw_state,
            final(self).area_redraw == old(self).area_redraw,
            final(self).next_widget_handle == old(self).next_widget_handle,
    {
        let n = self.splitters.entries.len();
        let mut i: usize = 0;
        while i < n
            invariant
                n == self.splitters@.len(),
                i <= n,
                *self == *old(self),
                old(self).splitters.keys_unique(),
                forall|k: int| 0 <= k < i ==> (#[trigger] self.splitters@[k]).0 != id,
            decreases n - i,
        {
            if self.splitters.entries[i].0 == id {
                self.splitters.entries[i] = (id, SplitterInst { axis, align, touched: true });
                proof {
                    let o = old(self).splitters@;
                    let nn = final(self).splitters@;
                    assert(nn == o.update(i as int, (id, SplitterInst { axis, align, touched: true })));
                    assert(forall|k: int| 0 <= k < nn.len() ==> (#[trigger] nn[k]).0 == o[k].0);
                    assert forall|a: int, b: int|
                        0 <= a < b < nn.len() implies (#[trigger] nn[a]).0 != (
                    #[trigger] nn[b]).0 by {
                        assert(nn[a].0 == o[a].0);
                        assert(nn[b].0 == o[b].0);
                        assert(o[a].0 != o[b].0);
                    }
                    assert(nn[i as int].0 == id && nn[i as int].1.touched);
                    lemma_touched_splits_update(o, nn, id);
                }
                return ;
            }
            i = i + 1;
        }
        self.splitters.entries.push((id, SplitterInst { axis, align, touched: true }));
        proof {
            let o = old(self).splitters@;
            let nn = final(self).splitters@;
            assert forall|a: int, b: int|
                0 <= a < b < nn.len() implies (#[trigger] nn[a]).0 != (#[trigger] nn[b]).0 by {
                if b == nn.len() - 1 {
                    assert(o[a].0 != id);
                }
            }
            assert(nn.len() == o.len() + 1);
            assert(nn[o.len() as int].0 == id && nn[o.len() as int].1.touched);
            assert forall|k: int|
                0 <= k < nn.len() implies ((#[trigger] nn[k]).0 == id && nn[k].1.touched && (k
                >= o.len() || o[k].0 == id)) || (k < o.len() && nn[k] == o[k]) by {
                if k < o.len() {
                    assert(nn[k] == o[k]);
                }
            }
            lemma_touched_splits_update(o, nn, id);
        }
    }

    /// Close out the tab bar under `id`: record the measured content
    /// rectangle, read off whether the content region must be drawn, and
    /// clear its pending mark. Reports `area_redraw` when no bar exists.
    fn close_tab_bar(&mut self, id: ItemId, rect: Rect, area_redraw: bool) -> (redrawing: bool)
        ensures
            redrawing == content_redrawing(old(self).tab_bars@, id, area_redraw),
            touched_tabs(final(self).tab_bars@) == touched_tabs(old(self).tab_bars@),
            final(self).tab_bars@.len() == old(self).tab_bars@.len(),
            forall|k: int|
                0 <= k < old(self).tab_bars@.len() ==> (#[trigger] final(self).tab_bars@[k]).0
                    == old(self).tab_bars@[k].0,
            old(self).tab_bars.keys_unique() ==> final(self).tab_bars.keys_unique(),
            final(self).dock_items@ == old(self).dock_items@,
            final(self).templates@ == old(self).templates@,
            final(self).splitters@ == old(self).splitters@,
            final(self).items@ == old(self).items@,
            final(self).draw_state == old(self).draw_state,
            final(self).area_redraw == old(self).area_redraw,
            final(self).next_widget_handle == old(self).next_widget_handle,
    {
        let n = self.tab_bars.entries.len();
        let mut i: usize = 0;
        while i < n
            invariant
                n == self.tab_bars@.len(),
                i <= n,
                *self == *old(self),
                forall|k: int| 0 <= k < i ==> (#[trigger] self.tab_bars@[k]).0 != id,
            decreases n - i,
        {
            if self.tab_bars.entries[i].0 == id {
                proof {
                    lemma_first_where_is(self.tab_bars@, key_is::<TabBarWrap>(id), i as int);
                }
                let w = self.tab_bars.entries[i].1;
                let redrawing = w.needs_redraw || area_redraw;
                self.tab_bars.entries[i] = (
                    id,
                    TabBarWrap { contents_rect: rect, needs_redraw: false, touched: w.touched },
                );
                proof {
                    let o = old(self).tab_bars@;
                    let nn = final(self).tab_bars@;
                    assert(forall|k: int|
                        0 <= k < nn.len() ==> (#[trigger] nn[k]).0 == o[k].0 && nn[k].1.touched
                            == o[k].1.touched);
                    lemma_touched_tabs_same(o, nn);
                }
                return redrawing;
            }
            i = i + 1;
        }
        proof {
            lemma_first_where_none(self.tab_bars@, key_is::<TabBarWrap>(id));
        }
        area_redraw
    }

    /// Fetch the content widget materialised for `(id, kind)`, creating it
    /// with a fresh handle on first encounter.
    fn get_or_make_widget(&mut self, id: ItemId, kind: ItemId) -> (w: u64)
        requires
            old(self).items.keys_unique(),
        ensures
            final(self).items.keys_unique(),
            old(self).items@.is_prefix_of(final(self).items@),
            final(self).items.has_pair(id, kind),
            w == final(self).items@[final(self).items.p_idx(id, kind)].1.widget,
            old(self).items.has_pair(id, kind) ==> final(self).items@ == old(self).items@
                && final(self).next_widget_handle == old(self).next_widget_handle,
            !old(self).items.has_pair(id, kind) ==> final(self).items@ == old(self).items@.push(
                ((id, kind), WidgetInst { widget: old(self).next_widget_handle }),
            ) && w == old(self).next_widget_handle,
            final(self).dock_items@ == old(self).dock_items@,
            final(self).templates@ == old(self).templates@,
            final(self).tab_bars@ == old(self).tab_bars@,
            final(self).splitters@ == old(self).splitters@,
            final(self).draw_state == old(self).draw_state,
            final(self).area_redraw == old(self).area_redraw,
    {
        let n = self.items.entries.len();
        let mut i: usize = 0;
        while i < n
            invariant
                n == self.items@.len(),
                i <= n,
                *self == *old(self),
                old(self).items.keys_unique(),
                forall|k: int| 0 <= k < i ==> !(pair_is(id, kind)(#[trigger] self.items@[k])),
            decreases n - i,
        {
            if self.items.entries[i].0.0 == id && self.items.entries[i].0.1 == kind {
                proof {
                    lemma_first_where_is(self.items@, pair_is(id, kind), i as int);
                    assert(old(self).items@.subrange(0, old(self).items@.len() as int) =~= old(
                        self,
                    ).items@);
                }
                return self.items.entries[i].1.widget;
            }
            i = i + 1;
        }
        proof {
            lemma_first_where_none(self.items@, pair_is(id, kind));
        }
        let handle = self.next_widget_handle;
        self.next_widget_handle = handle.wrapping_add(1);
        self.items.entries.push(((id, kind), WidgetInst { widget: handle }));
        proof {
            assert(final(self).items@.subrange(0, old(self).items@.len() as int) =~= old(
                self,
            ).items@);
            assert forall|a: int, b: int|
                0 <= a < b < final(self).items@.len() implies (#[trigger] final(self).items@[a]).0
                != (#[trigger] final(self).items@[b]).0 by {
                if b == final(self).items@.len() - 1 {
                    assert(!(pair_is(id, kind)(old(self).items@[a])));
                }
            }
            assert(old(self).items@.is_prefix_of(final(self).items@));
            lemma_first_where_is(
                final(self).items@,
                pair_is(id, kind),
                final(self).items@.len() - 1,
            );
        }
        handle
    }

    /// Drop every tab-bar entry the pass did not visit, and clear the
    /// visited marks of those it did.
    #[verifier::spinoff_prover]
    fn sweep_tab_bars(&mut self)
        requires
            old(self).tab_bars.keys_unique(),
        ensures
            final(self).tab_bars.keys_unique(),
            no_touched_tabs(final(self).tab_bars@),
            forall|x: ItemId|
                #[trigger] final(self).tab_bars.has_key(x) <==> touched_tabs(
                    old(self).tab_bars@,
                ).contains(x),
            final(self).dock_items@ == old(self).dock_items@,
            final(self).templates@ == old(self).templates@,
            final(self).splitters@ == old(self).splitters@,
            final(self).items@ == old(self).items@,
            final(self).draw_state == old(self).draw_state,
            final(self).area_redraw == old(self).area_redraw,
            final(self).next_widget_handle == old(self).next_widget_handle,
    {
        let n = self.tab_bars.entries.len();
        let mut kept: Vec<(ItemId, TabBarWrap)> = Vec::new();
        let mut i: usize = 0;
        while i < n
            invariant
                n == self.tab_bars@.len(),
                i <= n,
                *self == *old(self),
                old(self).tab_bars.keys_unique(),
                sweep_inv_tb(self.tab_bars@, kept@, i as int),
            decreases n - i,
        {
            let e = self.tab_bars.entries[i];
            let ghost k0 = kept@;
            if e.1.touched {
                kept.push(
                    (
                        e.0,
                        TabBarWrap {
                            contents_rect: e.1.contents_rect,
                            needs_redraw: e.1.needs_redraw,
                            touched: false,
                        },
                    ),
                );
                proof {
                    lemma_sweep_tb_keep(self.tab_bars@, k0, kept@, i as int);
                }
            } else {
                proof {
                    lemma_sweep_tb_skip(self.tab_bars@, kept@, i as int);
                }
            }
            i = i + 1;
        }
        self.tab_bars.entries = kept;
        proof {
            lemma_sweep_tb_post(old(self).tab_bars@, final(self).tab_bars@);
        }
    }

    /// Drop every splitter instance the pass did not visit, and clear the
    /// visited marks of those it did.
    #[verifier::spinoff_prover]
    fn sweep_splitters(&mut self)
        requires
            old(self).splitters.keys_unique(),
        ensures
            final(self).splitters.keys_unique(),
            no_touched_splits(final(self).splitters@),
            forall|x: ItemId|
                #[trigger] final(self).splitters.has_key(x) <==> touched_splits(
                    old(self).splitters@,
                ).contains(x),
            final(self).dock_items@ == old(self).dock_items@,
            final(self).templates@ == old(self).templates@,
            final(self).tab_bars@ == old(self).tab_bars@,
            final(self).items@ == old(self).items@,
            final(self).draw_state == old(self).draw_state,
            final(self).area_redraw == old(self).area_redraw,
            final(self).next_widget_handle == old(self).next_widget_handle,
    {
        let n = self.splitters.entries.len();
        let mut kept: Vec<(ItemId, SplitterInst)> = Vec::new();
        let mut i: usize = 0;
        while i < n
            invariant
                n == self.splitters@.len(),
                i <= n,
                *self == *old(self),
                old(self).splitters.keys_unique(),
                sweep_inv_sp(self.splitters@, kept@, i as int),
            decreases n - i,
        {
            let e = self.splitters.entries[i];
            let ghost k0 = kept@;
            if e.1.touched {
                kept.push((e.0, SplitterInst { axis: e.1.axis, align: e.1.align, touched: false }));
                proof {
                    lemma_sweep_sp_keep(self.splitters@, k0, kept@, i as int);
                }
            } else {
                proof {
                    lemma_sweep_sp_skip(self.splitters@, kept@, i as int);
                }
            }
            i = i + 1;
        }
        self.splitters.entries = kept;
        proof {
            lemma_sweep_sp_post(old(self).splitters@, final(self).splitters@);
        }
    }
}

/// Two registries with the same keys and the same visited marks have the
/// same visited set.
proof fn lemma_touched_tabs_same(o: Seq<(ItemId, TabBarWrap)>, n: Seq<(ItemId, TabBarWrap)>)
    requires
        o.len() == n.len(),
        forall|k: int|
            0 <= k < n.len() ==> (#[trigger] n[k]).0 == o[k].0 && n[k].1.touched
                == o[k].1.touched,
    ensures
        touched_tabs(n) == touched_tabs(o),
{
    assert forall|x: ItemId| #[trigger] touched_tabs(n).contains(x) implies touched_tabs(
        o,
    ).contains(x) by {
        let k = choose|k: int| 0 <= k < n.len() && (#[trigger] n[k]).0 == x && n[k].1.touched;
        assert(o[k].0 == x && o[k].1.touched);
    }
    assert forall|x: ItemId| #[trigger] touched_tabs(o).contains(x) implies touched_tabs(
        n,
    ).contains(x) by {
        let k = choose|k: int| 0 <= k < o.len() && (#[trigger] o[k]).0 == x && o[k].1.touched;
        assert(n[k].0 == x && n[k].1.touched);
    }
    assert(touched_tabs(n) =~= touched_tabs(o));
}

/// Updating or appending an entry marked visited under `id` grows the
/// visited set by exactly `id`.
proof fn lemma_touched_tabs_update(o: Seq<(ItemId, TabBarWrap)>, n: Seq<(ItemId, TabBarWrap)>, id: ItemId)
    requires
        o.len() <= n.len() <= o.len() + 1,
        forall|k: int|
            0 <= k < n.len() ==> ((#[trigger] n[k]).0 == id && n[k].1.touched && (k >= o.len()
                || o[k].0 == id)) || (k < o.len() && n[k] == o[k]),
        exists|k: int| 0 <= k < n.len() && (#[trigger] n[k]).0 == id && n[k].1.touched,
    ensures
        touched_tabs(n) == touched_tabs(o).insert(id),
{
    assert forall|x: ItemId| #[trigger] touched_tabs(n).contains(x) implies touched_tabs(
        o,
    ).insert(id).contains(x) by {
        if x != id {
            let k = choose|k: int| 0 <= k < n.len() && (#[trigger] n[k]).0 == x && n[k].1.touched;
            assert(n[k] == o[k]);
            assert(touched_tabs(o).contains(x));
        }
    }
    assert forall|x: ItemId| #[trigger] touched_tabs(o).insert(id).contains(x) implies touched_tabs(
        n,
    ).contains(x) by {
        if x == id {
            let k = choose|k: int| 0 <= k < n.len() && (#[trigger] n[k]).0 == id && n[k].1.touched;
            assert(0 <= k < n.len() && n[k].0 == x && n[k].1.touched);
        } else {
            let k = choose|k: int| 0 <= k < o.len() && (#[trigger] o[k]).0 == x && o[k].1.touched;
            assert(n[k] == o[k]);
            assert(n[k].0 == x && n[k].1.touched);
        }
    }
    assert(touched_tabs(n) =~= touched_tabs(o).insert(id));
}

proof fn lemma_touched_splits_update(
    o: Seq<(ItemId, SplitterInst)>,
    n: Seq<(ItemId, SplitterInst)>,
    id: ItemId,
)
    requires
        o.len() <= n.len() <= o.len() + 1,
        forall|k: int|
            0 <= k < n.len() ==> ((#[trigger] n[k]).0 == id && n[k].1.touched && (k >= o.len()
                || o[k].0 == id)) || (k < o.len() && n[k] == o[k]),
        exists|k: int| 0 <= k < n.len() && (#[trigger] n[k]).0 == id && n[k].1.touched,
    ensures
        touched_splits(n) == touched_splits(o).insert(id),
{
    assert forall|x: ItemId| #[trigger] touched_splits(n).contains(x) implies touched_splits(
        o,
    ).insert(id).contains(x) by {
        if x != id {
            let k = choose|k: int| 0 <= k < n.len() && (#[trigger] n[k]).0 == x && n[k].1.touched;
            assert(n[k] == o[k]);
            assert(touched_splits(o).contains(x));
        }
    }
    assert forall|x: ItemId|
        #[trigger] touched_splits(o).insert(id).contains(x) implies touched_splits(
        n,
    ).contains(x) by {
        if x == id {
            let k = choose|k: int| 0 <= k < n.len() && (#[trigger] n[k]).0 == id && n[k].1.touched;
            assert(0 <= k < n.len() && n[k].0 == x && n[k].1.touched);
        } else {
            let k = choose|k: int| 0 <= k < o.len() && (#[trigger] o[k]).0 == x && o[k].1.touched;
            assert(n[k] == o[k]);
            assert(n[k].0 == x && n[k].1.touched);
        }
    }
    assert(touched_splits(n) =~= touched_splits(o).insert(id));
}


/// Some source entry before `i` is keyed `x` and was visited.
pub open spec fn touched_before_tb(o: Seq<(ItemId, TabBarWrap)>, x: ItemId, i: int) -> bool {
    exists|k: int| 0 <= k < i && (#[trigger] o[k]).0 == x && o[k].1.touched
}

/// The kept registry holds the key `x`.
pub open spec fn kept_has_tb(kept: Seq<(ItemId, TabBarWrap)>, x: ItemId) -> bool {
    exists|m: int| 0 <= m < kept.len() && (#[trigger] kept[m]).0 == x
}

/// The sweep has consumed the first `i` source entries: what it kept is
/// exactly their visited subset, marks cleared, keys still unique.
pub open spec fn sweep_inv_tb(o: Seq<(ItemId, TabBarWrap)>, kept: Seq<(ItemId, TabBarWrap)>, i: int) -> bool {
    &&& forall|m: int| 0 <= m < kept.len() ==> !(#[trigger] kept[m]).1.touched
    &&& forall|m: int| 0 <= m < kept.len() ==> touched_before_tb(o, (#[trigger] kept[m]).0, i)
    &&& forall|k: int| 0 <= k < i && (#[trigger] o[k]).1.touched ==> kept_has_tb(kept, o[k].0)
    &&& forall|a: int, b: int|
        0 <= a < b < kept.len() ==> (#[trigger] kept[a]).0 != (#[trigger] kept[b]).0
}

proof fn lemma_sweep_tb_keep(
    o: Seq<(ItemId, TabBarWrap)>,
    k0: Seq<(ItemId, TabBarWrap)>,
    k1: Seq<(ItemId, TabBarWrap)>,
    i: int,
)
    requires
        0 <= i < o.len(),
        forall|a: int, b: int| 0 <= a < b < o.len() ==> (#[trigger] o[a]).0 != (#[trigger] o[b]).0,
        o[i].1.touched,
        k1 == k0.push(
            (
                o[i].0,
                TabBarWrap {
                    contents_rect: o[i].1.contents_rect,
                    needs_redraw: o[i].1.needs_redraw,
                    touched: false,
                },
            ),
        ),
        sweep_inv_tb(o, k0, i),
    ensures
        sweep_inv_tb(o, k1, i + 1),
{
    assert forall|m: int| 0 <= m < k1.len() implies !(#[trigger] k1[m]).1.touched by {
        if m < k0.len() {
            assert(k1[m] == k0[m]);
        }
    }
    assert forall|m: int| 0 <= m < k1.len() implies touched_before_tb(
        o,
        (#[trigger] k1[m]).0,
        i + 1,
    ) by {
        if m < k0.len() {
            assert(k1[m] == k0[m]);
            assert(touched_before_tb(o, k0[m].0, i));
            let k = choose|k: int| 0 <= k < i && (#[trigger] o[k]).0 == k0[m].0 && o[k].1.touched;
            assert(0 <= k < i + 1 && o[k].0 == k1[m].0 && o[k].1.touched);
        } else {
            assert(k1[m].0 == o[i].0);
            assert(0 <= i < i + 1 && o[i].0 == k1[m].0 && o[i].1.touched);
        }
    }
    assert forall|k: int| 0 <= k < i + 1 && (#[trigger] o[k]).1.touched implies kept_has_tb(
        k1,
        o[k].0,
    ) by {
        if k < i {
            assert(kept_has_tb(k0, o[k].0));
            let m = choose|m: int| 0 <= m < k0.len() && (#[trigger] k0[m]).0 == o[k].0;
            assert(k1[m] == k0[m]);
            assert(0 <= m < k1.len() && k1[m].0 == o[k].0);
        } else {
            assert(0 <= k1.len() - 1 < k1.len() && k1[k1.len() - 1].0 == o[k].0);
        }
    }
    assert forall|a: int, b: int|
        0 <= a < b < k1.len() implies (#[trigger] k1[a]).0 != (#[trigger] k1[b]).0 by {
        if b == k1.len() - 1 {
            assert(k1[a] == k0[a]);
            assert(touched_before_tb(o, k0[a].0, i));
            let k = choose|k: int| 0 <= k < i && (#[trigger] o[k]).0 == k0[a].0 && o[k].1.touched;
            assert(o[k].0 != o[i].0);
        } else {
            assert(k1[a] == k0[a] && k1[b] == k0[b]);
        }
    }
}

proof fn lemma_sweep_tb_skip(o: Seq<(ItemId, TabBarWrap)>, kept: Seq<(ItemId, TabBarWrap)>, i: int)
    requires
        0 <= i < o.len(),
        !o[i].1.touched,
        sweep_inv_tb(o, kept, i),
    ensures
        sweep_inv_tb(o, kept, i + 1),
{
    assert forall|m: int| 0 <= m < kept.len() implies touched_before_tb(
        o,
        (#[trigger] kept[m]).0,
        i + 1,
    ) by {
        assert(touched_before_tb(o, kept[m].0, i));
        let k = choose|k: int| 0 <= k < i && (#[trigger] o[k]).0 == kept[m].0 && o[k].1.touched;
        assert(0 <= k < i + 1 && o[k].0 == kept[m].0 && o[k].1.touched);
    }
}

proof fn lemma_sweep_tb_post(o: Seq<(ItemId, TabBarWrap)>, kept: Seq<(ItemId, TabBarWrap)>)
    requires
        sweep_inv_tb(o, kept, o.len() as int),
    ensures
        forall|x: ItemId|
            #[trigger] first_where(kept, key_is::<TabBarWrap>(x)) >= 0 <==> touched_tabs(
                o,
            ).contains(x),
        forall|k: int| 0 <= k < kept.len() ==> !(#[trigger] kept[k]).1.touched,
        forall|a: int, b: int|
            0 <= a < b < kept.len() ==> (#[trigger] kept[a]).0 != (#[trigger] kept[b]).0,
{
    assert forall|x: ItemId|
        #[trigger] first_where(kept, key_is::<TabBarWrap>(x)) >= 0 <==> touched_tabs(
        o,
    ).contains(x) by {
        if first_where(kept, key_is::<TabBarWrap>(x)) >= 0 {
            lemma_first_where(kept, key_is::<TabBarWrap>(x));
            let m = first_where(kept, key_is::<TabBarWrap>(x));
            assert(kept[m].0 == x);
            assert(touched_before_tb(o, x, o.len() as int));
            let k = choose|k: int|
                0 <= k < o.len() && (#[trigger] o[k]).0 == x && o[k].1.touched;
            assert(touched_tabs(o).contains(x));
        }
        if touched_tabs(o).contains(x) {
            let k = choose|k: int| 0 <= k < o.len() && (#[trigger] o[k]).0 == x && o[k].1.touched;
            assert(kept_has_tb(kept, o[k].0));
            let m = choose|m: int| 0 <= m < kept.len() && (#[trigger] kept[m]).0 == o[k].0;
            lemma_first_where_found(kept, key_is::<TabBarWrap>(x), m);
        }
    }
}

/// Some source entry before `i` is keyed `x` and was visited.
pub open spec fn touched_before_sp(o: Seq<(ItemId, SplitterInst)>, x: ItemId, i: int) -> bool {
    exists|k: int| 0 <= k < i && (#[trigger] o[k]).0 == x && o[k].1.touched
}

/// The kept registry holds the key `x`.
pub open spec fn kept_has_sp(kept: Seq<(ItemId, SplitterInst)>, x: ItemId) -> bool {
    exists|m: int| 0 <= m < kept.len() && (#[trigger] kept[m]).0 == x
}

pub open spec fn sweep_inv_sp(o: Seq<(ItemId, SplitterInst)>, kept: Seq<(ItemId, SplitterInst)>, i: int) -> bool {
    &&& forall|m: int| 0 <= m < kept.len() ==> !(#[trigger] kept[m]).1.touched
    &&& forall|m: int| 0 <= m < kept.len() ==> touched_before_sp(o, (#[trigger] kept[m]).0, i)
    &&& forall|k: int| 0 <= k < i && (#[trigger] o[k]).1.touched ==> kept_has_sp(kept, o[k].0)
    &&& forall|a: int, b: int|
        0 <= a < b < kept.len() ==> (#[trigger] kept[a]).0 != (#[trigger] kept[b]).0
}

proof fn lemma_sweep_sp_keep(
    o: Seq<(ItemId, SplitterInst)>,
    k0: Seq<(ItemId, SplitterInst)>,
    k1: Seq<(ItemId, SplitterInst)>,
    i: int,
)
    requires
        0 <= i < o.len(),
        forall|a: int, b: int| 0 <= a < b < o.len() ==> (#[trigger] o[a]).0 != (#[trigger] o[b]).0,
        o[i].1.touched,
        k1 == k0.push(
            (o[i].0, SplitterInst { axis: o[i].1.axis, align: o[i].1.align, touched: false }),
        ),
        sweep_inv_sp(o, k0, i),
    ensures
        sweep_inv_sp(o, k1, i + 1),
{
    assert forall|m: int| 0 <= m < k1.len() implies !(#[trigger] k1[m]).1.touched by {
        if m < k0.len() {
            assert(k1[m] == k0[m]);
        }
    }
    assert forall|m: int| 0 <= m < k1.len() implies touched_before_sp(
        o,
        (#[trigger] k1[m]).0,
        i + 1,
    ) by {
        if m < k0.len() {
            assert(k1[m] == k0[m]);
            assert(touched_before_sp(o, k0[m].0, i));
            let k = choose|k: int| 0 <= k < i && (#[trigger] o[k]).0 == k0[m].0 && o[k].1.touched;
            assert(0 <= k < i + 1 && o[k].0 == k1[m].0 && o[k].1.touched);
        } else {
            assert(k1[m].0 == o[i].0);
            assert(0 <= i < i + 1 && o[i].0 == k1[m].0 && o[i].1.touched);
        }
    }
    assert forall|k: int| 0 <= k < i + 1 && (#[trigger] o[k]).1.touched implies kept_has_sp(
        k1,
        o[k].0,
    ) by {
        if k < i {
            assert(kept_has_sp(k0, o[k].0));
            let m = choose|m: int| 0 <= m < k0.len() && (#[trigger] k0[m]).0 == o[k].0;
            assert(k1[m] == k0[m]);
            assert(0 <= m < k1.len() && k1[m].0 == o[k].0);
        } else {
            assert(0 <= k1.len() - 1 < k1.len() && k1[k1.len() - 1].0 == o[k].0);
        }
    }
    assert forall|a: int, b: int|
        0 <= a < b < k1.len() implies (#[trigger] k1[a]).0 != (#[trigger] k1[b]).0 by {
        if b == k1.len() - 1 {
            assert(k1[a] == k0[a]);
            assert(touched_before_sp(o, k0[a].0, i));
            let k = choose|k: int| 0 <= k < i && (#[trigger] o[k]).0 == k0[a].0 && o[k].1.touched;
            assert(o[k].0 != o[i].0);
        } else {
            assert(k1[a] == k0[a] && k1[b] == k0[b]);
        }
    }
}

proof fn lemma_sweep_sp_skip(o: Seq<(ItemId, SplitterInst)>, kept: Seq<(ItemId, SplitterInst)>, i: int)
    requires
        0 <= i < o.len(),
        !o[i].1.touched,
        sweep_inv_sp(o, kept, i),
    ensures
        sweep_inv_sp(o, kept, i + 1),
{
    assert forall|m: int| 0 <= m < kept.len() implies touched_before_sp(
        o,
        (#[trigger] kept[m]).0,
        i + 1,
    ) by {
        assert(touched_before_sp(o, kept[m].0, i));
        let k = choose|k: int| 0 <= k < i && (#[trigger] o[k]).0 == kept[m].0 && o[k].1.touched;
        assert(0 <= k < i + 1 && o[k].0 == kept[m].0 && o[k].1.touched);
    }
}

proof fn lemma_sweep_sp_post(o: Seq<(ItemId, SplitterInst)>, kept: Seq<(ItemId, SplitterInst)>)
    requires
        sweep_inv_sp(o, kept, o.len() as int),
    ensures
        forall|x: ItemId|
            #[trigger] first_where(kept, key_is::<SplitterInst>(x)) >= 0 <==> touched_splits(
                o,
            ).contains(x),
        forall|k: int| 0 <= k < kept.len() ==> !(#[trigger] kept[k]).1.touched,
        forall|a: int, b: int|
            0 <= a < b < kept.len() ==> (#[trigger] kept[a]).0 != (#[trigger] kept[b]).0,
{
    assert forall|x: ItemId|
        #[trigger] first_where(kept, key_is::<SplitterInst>(x)) >= 0 <==> touched_splits(
        o,
    ).contains(x) by {
        if first_where(kept, key_is::<SplitterInst>(x)) >= 0 {
            lemma_first_where(kept, key_is::<SplitterInst>(x));
            let m = first_where(kept, key_is::<SplitterInst>(x));
            assert(kept[m].0 == x);
            assert(touched_before_sp(o, x, o.len() as int));
            let k = choose|k: int|
                0 <= k < o.len() && (#[trigger] o[k]).0 == x && o[k].1.touched;
            assert(touched_splits(o).contains(x));
        }
        if touched_splits(o).contains(x) {
            let k = choose|k: int| 0 <= k < o.len() && (#[trigger] o[k]).0 == x && o[k].1.touched;
            assert(kept_has_sp(kept, o[k].0));
            let m = choose|m: int| 0 <= m < kept.len() && (#[trigger] kept[m]).0 == o[k].0;
            lemma_first_where_found(kept, key_is::<SplitterInst>(x), m);
        }
    }
}


impl Dock {
    /// The bookkeeping of a pass: what was visited plus what is pending
    /// covers exactly what the tree reaches from the root, and every pending
    /// frame still matches its node.
    pub open spec fn draw_mid(self) -> bool {
        match self.draw_state {
            Option::Some(st) => {
                let t = tree_view(self.dock_items@);
                &&& depth_ok(t, root_id(), fuel_of(t))
                &&& touched_tabs(self.tab_bars@).union(stack_tabs(t, st.stack@)) == tabs_reach(
                    t,
                    root_id(),
                    fuel_of(t),
                )
                &&& touched_splits(self.splitters@).union(stack_splits(t, st.stack@))
                    == split_reach(t, root_id(), fuel_of(t))
                &&& forall|i: int|
                    0 <= i < st.stack@.len() ==> frame_ok(t, #[trigger] st.stack@[i])
            },
            Option::None => false,
        }
    }

    /// The dock is fit to draw: registries are well keyed, every selection
    /// is in range, and either no pass is running (with all visited marks
    /// clear and the tree acyclic below the root) or the running pass's
    /// bookkeeping is consistent.
    pub open spec fn draw_ready(self) -> bool {
        &&& self.regs_unique()
        &&& sel_ok(tree_view(self.dock_items@))
        &&& match self.draw_state {
            Option::None => no_touched_tabs(self.tab_bars@) && no_touched_splits(self.splitters@)
                && depth_ok(
                tree_view(self.dock_items@),
                root_id(),
                fuel_of(tree_view(self.dock_items@)),
            ),
            Option::Some(st) => self.draw_mid(),
        }
    }

    /// The number of frames the running or next pass still processes: the
    /// whole tree below the root for a fresh pass, the pending stack for a
    /// paused one.
    pub open spec fn draw_work(self) -> nat {
        let t = tree_view(self.dock_items@);
        match self.draw_state {
            Option::None => node_weight(t, root_id(), fuel_of(t)),
            Option::Some(st) => stack_weight(t, st.stack@),
        }
    }

    /// A frame has been popped and is about to be acted on.
    pub open spec fn step_pre(self, f: DrawStackItem) -> bool {
        match self.draw_state {
            Option::Some(st) => {
                let t = tree_view(self.dock_items@);
                &&& self.regs_unique()
                &&& sel_ok(t)
                &&& depth_ok(t, root_id(), fuel_of(t))
                &&& frame_ok(t, f)
                &&& touched_tabs(self.tab_bars@).union(
                    frame_tabs(t, f).union(stack_tabs(t, st.stack@)),
                ) == tabs_reach(t, root_id(), fuel_of(t))
                &&& touched_splits(self.splitters@).union(
                    frame_splits(t, f).union(stack_splits(t, st.stack@)),
                ) == split_reach(t, root_id(), fuel_of(t))
                &&& forall|i: int|
                    0 <= i < st.stack@.len() ==> frame_ok(t, #[trigger] st.stack@[i])
            },
            Option::None => false,
        }
    }

    /// Push a frame on the running pass's stack.
    fn push_frame(&mut self, f: DrawStackItem)
        requires
            old(self).draw_state matches Option::Some(_),
        ensures
            ({
                let st0 = draw_stack_view(old(self).draw_state).unwrap();
                draw_stack_view(final(self).draw_state) == Option::Some(st0.push(f))
            }),
            final(self).dock_items@ == old(self).dock_items@,
            final(self).templates@ == old(self).templates@,
            final(self).tab_bars@ == old(self).tab_bars@,
            final(self).splitters@ == old(self).splitters@,
            final(self).items@ == old(self).items@,
            final(self).area_redraw == old(self).area_redraw,
            final(self).next_widget_handle == old(self).next_widget_handle,
    {
        match &mut self.draw_state {
            Option::Some(ds) => ds.stack.push(f),
            Option::None => {},
        }
    }

    /// Act on a splitter's opening frame: materialise its instance, begin
    /// its layout, and descend into the first child.
    #[verifier::spinoff_prover]
    fn step_split_left(&mut self, cx: &mut Cx2d, id: ItemId)
        requires
            old(self).step_pre(DrawStackItem::SplitLeft { id }),
        ensures
            final(self).draw_ready(),
            final(self).draw_state matches Option::Some(_),
            final(self).dock_items@ == old(self).dock_items@,
            final(self).templates@ == old(self).templates@,
            final(self).items@ == old(self).items@,
            old(self).items@.is_prefix_of(final(self).items@),
            final(self).area_redraw == old(self).area_redraw,
            old(cx).ops@.is_prefix_of(final(cx).ops@),
            ({
                let t = tree_view(old(self).dock_items@);
                final(cx).ops@ == old(cx).ops@.push(
                    DrawOp::BeginSplitter {
                        id,
                        axis: axis_of(lookup(t, id).unwrap()),
                        align: align_of(lookup(t, id).unwrap()),
                    },
                )
            }),
            ({
                let t = tree_view(old(self).dock_items@);
                let st0 = draw_stack_view(old(self).draw_state).unwrap();
                let st1 = draw_stack_view(final(self).draw_state).unwrap();
                stack_weight(t, st1) + 1 <= frame_weight(t, DrawStackItem::SplitLeft { id }) + stack_weight(t, st0)
            }),
            final(cx).turtle_rect == old(cx).turtle_rect,
    {
        let ghost t = tree_view(self.dock_items@);
        let ghost f = DrawStackItem::SplitLeft { id };
        let ghost st0 = draw_stack_view(self.draw_state).unwrap();
        let hit: Option<(Axis, SplitterAlign, ItemId, ItemId)> = match self.node(id) {
            Option::Some(DockItem::Splitter { axis, align, a, b }) => Some((*axis, *align, *a, *b)),
            _ => None,
        };
        match hit {
            Option::Some((axis, align, a, b)) => {
                self.touch_splitter(id, axis, align);
                cx.ops.push(DrawOp::BeginSplitter { id, axis, align });
                self.push_frame(DrawStackItem::SplitRight { id });
                let child = self.node(a);
                let fa = DrawStackItem::from_dock_item(a, child);
                self.push_frame(fa);
                proof {
                    let fuel = fuel_of(t);
                    assert(depth_ok(t, id, fuel));
                    assert(depth_ok(t, a, (fuel - 1) as nat) && depth_ok(t, b, (fuel - 1) as nat));
                    lemma_depth_ok_mono(t, a, (fuel - 1) as nat, fuel);
                    lemma_depth_ok_mono(t, b, (fuel - 1) as nat, fuel);
                    lemma_tabs_reach_mono(t, a, (fuel - 1) as nat, fuel);
                    lemma_tabs_reach_mono(t, b, (fuel - 1) as nat, fuel);
                    lemma_start_frame(t, a, fa);
                    assert(frame_tabs(t, f) == tabs_reach(t, id, fuel));
                    assert(tabs_reach(t, id, fuel) == tabs_reach(t, a, (fuel - 1) as nat).union(
                        tabs_reach(t, b, (fuel - 1) as nat),
                    ));
                    assert(frame_tabs(t, fa) == tabs_reach(t, a, fuel));
                    assert(frame_tabs(t, DrawStackItem::SplitRight { id }) == tabs_reach(
                        t,
                        b,
                        fuel,
                    ));
                    assert(split_reach(t, id, fuel) == set![id].union(
                        split_reach(t, a, (fuel - 1) as nat).union(
                            split_reach(t, b, (fuel - 1) as nat),
                        ),
                    ));
                    let st2 = draw_stack_view(final(self).draw_state).unwrap();
                    assert(st2 == st0.push(DrawStackItem::SplitRight { id }).push(fa));
                    lemma_stack_push(t, st0, DrawStackItem::SplitRight { id });
                    lemma_stack_push(t, st0.push(DrawStackItem::SplitRight { id }), fa);
                    lemma_stack_weight_push(t, st0, DrawStackItem::SplitRight { id });
                    lemma_stack_weight_push(t, st0.push(DrawStackItem::SplitRight { id }), fa);
                    lemma_node_weight_mono(t, a, (fuel - 1) as nat, fuel);
                    lemma_node_weight_mono(t, b, (fuel - 1) as nat, fuel);
                    assert(frame_weight(t, DrawStackItem::SplitLeft { id }) == 3 + node_weight(
                        t,
                        a,
                        fuel,
                    ) + node_weight(t, b, fuel));
                    assert(frame_weight(t, fa) == node_weight(t, a, fuel));
                    assert(frame_weight(t, DrawStackItem::SplitRight { id }) == 2 + node_weight(
                        t,
                        b,
                        fuel,
                    ));
                    assert(touched_tabs(final(self).tab_bars@).union(stack_tabs(t, st2))
                        =~= touched_tabs(old(self).tab_bars@).union(
                        frame_tabs(t, f).union(stack_tabs(t, st0)),
                    ));
                    assert(touched_splits(final(self).splitters@).union(stack_splits(t, st2))
                        =~= touched_splits(old(self).splitters@).insert(id).union(
                        frame_splits(t, fa).union(
                            frame_splits(t, DrawStackItem::SplitRight { id }).union(
                                stack_splits(t, st0),
                            ),
                        ),
                    ));
                    assert(touched_splits(old(self).splitters@).insert(id).union(
                        frame_splits(t, fa).union(
                            frame_splits(t, DrawStackItem::SplitRight { id }).union(
                                stack_splits(t, st0),
                            ),
                        ),
                    ) =~= touched_splits(old(self).splitters@).union(
                        frame_splits(t, f).union(stack_splits(t, st0)),
                    ));
                    assert forall|i: int|
                        0 <= i < st2.len() implies frame_ok(t, #[trigger] st2[i]) by {
                        if i < st0.len() {
                            assert(st2[i] == st0[i]);
                        } else if i == st0.len() {
                            assert(st2[i] == DrawStackItem::SplitRight { id });
                            assert(lookup(t, id) matches Option::Some(x) && child_b(x) == b);
                            lemma_depth_ok_mono(t, b, (fuel - 1) as nat, fuel);
                        } else {
                            assert(st2[i] == fa);
                        }
                    }
                }
            },
            Option::None => {
                proof {
                    assert(is_splitter_at(t, id));
                    assert(false);
                }
            },
        }
    }

    /// Act on a splitter's midpoint frame: mark the midpoint and descend
    /// into the second child.
    #[verifier::spinoff_prover]
    fn step_split_right(&mut self, cx: &mut Cx2d, id: ItemId)
        requires
            old(self).step_pre(DrawStackItem::SplitRight { id }),
        ensures
            final(self).draw_ready(),
            final(self).draw_state matches Option::Some(_),
            final(self).dock_items@ == old(self).dock_items@,
            final(self).templates@ == old(self).templates@,
            final(self).items@ == old(self).items@,
            old(self).items@.is_prefix_of(final(self).items@),
            final(self).area_redraw == old(self).area_redraw,
            old(cx).ops@.is_prefix_of(final(cx).ops@),
            final(cx).ops@ == old(cx).ops@.push(DrawOp::MiddleSplitter { id }),
            ({
                let t = tree_view(old(self).dock_items@);
                let st0 = draw_stack_view(old(self).draw_state).unwrap();
                let st1 = draw_stack_view(final(self).draw_state).unwrap();
                stack_weight(t, st1) + 1 <= frame_weight(t, DrawStackItem::SplitRight { id }) + stack_weight(t, st0)
            }),
            final(cx).turtle_rect == old(cx).turtle_rect,
    {
        let ghost t = tree_view(self.dock_items@);
        let ghost f = DrawStackItem::SplitRight { id };
        let ghost st0 = draw_stack_view(self.draw_state).unwrap();
        let hit: Option<ItemId> = match self.node(id) {
            Option::Some(DockItem::Splitter { b, .. }) => Some(*b),
            _ => None,
        };
        match hit {
            Option::Some(b) => {
                cx.ops.push(DrawOp::MiddleSplitter { id });
                self.push_frame(DrawStackItem::SplitEnd { id });
                let child = self.node(b);
                let fb = DrawStackItem::from_dock_item(b, child);
                self.push_frame(fb);
                proof {
                    let fuel = fuel_of(t);
                    lemma_start_frame(t, b, fb);
                    let st2 = draw_stack_view(final(self).draw_state).unwrap();
                    assert(st2 == st0.push(DrawStackItem::SplitEnd { id }).push(fb));
                    lemma_stack_push(t, st0, DrawStackItem::SplitEnd { id });
                    lemma_stack_push(t, st0.push(DrawStackItem::SplitEnd { id }), fb);
                    lemma_stack_weight_push(t, st0, DrawStackItem::SplitEnd { id });
                    lemma_stack_weight_push(t, st0.push(DrawStackItem::SplitEnd { id }), fb);
                    assert(frame_weight(t, fb) == node_weight(t, b, fuel));
                    assert(frame_weight(t, DrawStackItem::SplitRight { id }) == 2 + node_weight(
                        t,
                        b,
                        fuel,
                    ));
                    assert(frame_tabs(t, f) == tabs_reach(t, b, fuel));
                    assert(frame_splits(t, f) == split_reach(t, b, fuel));
                    assert(touched_tabs(final(self).tab_bars@).union(stack_tabs(t, st2))
                        =~= touched_tabs(old(self).tab_bars@).union(
                        frame_tabs(t, f).union(stack_tabs(t, st0)),
                    ));
                    assert(touched_splits(final(self).splitters@).union(stack_splits(t, st2))
                        =~= touched_splits(old(self).splitters@).union(
                        frame_splits(t, f).union(stack_splits(t, st0)),
                    ));
                    assert forall|i: int|
                        0 <= i < st2.len() implies frame_ok(t, #[trigger] st2[i]) by {
                        if i < st0.len() {
                            assert(st2[i] == st0[i]);
                        } else if i == st0.len() {
                            assert(st2[i] == DrawStackItem::SplitEnd { id });
                        } else {
                            assert(st2[i] == fb);
                            assert(depth_ok(t, b, fuel_of(t)));
                        }
                    }
                }
            },
            Option::None => {
                proof {
                    assert(is_splitter_at(t, id));
                    assert(false);
                }
            },
        }
    }

    /// Act on a tabs frame: materialise the tab bar, begin it with the
    /// selected index, and queue the first label.
    #[verifier::spinoff_prover]
    fn step_tabs(&mut self, cx: &mut Cx2d, id: ItemId)
        requires
            old(self).step_pre(DrawStackItem::Tabs { id }),
        ensures
            final(self).draw_ready(),
            final(self).draw_state matches Option::Some(_),
            final(self).dock_items@ == old(self).dock_items@,
            final(self).templates@ == old(self).templates@,
            final(self).items@ == old(self).items@,
            old(self).items@.is_prefix_of(final(self).items@),
            final(self).area_redraw == old(self).area_redraw,
            old(cx).ops@.is_prefix_of(final(cx).ops@),
            ({
                let t = tree_view(old(self).dock_items@);
                &&& final(cx).ops@.len() == old(cx).ops@.len() + 1
                &&& final(cx).ops@.last() matches DrawOp::BeginTabBar { id: bid, selected: s2 }
                &&& bid == id
                &&& s2 as int == sel_of(lookup(t, id).unwrap())
            }),
            ({
                let t = tree_view(old(self).dock_items@);
                let st0 = draw_stack_view(old(self).draw_state).unwrap();
                let st1 = draw_stack_view(final(self).draw_state).unwrap();
                stack_weight(t, st1) + 1 <= frame_weight(t, DrawStackItem::Tabs { id }) + stack_weight(t, st0)
            }),
            final(cx).turtle_rect == old(cx).turtle_rect,
    {
        let ghost t = tree_view(self.dock_items@);
        let ghost f = DrawStackItem::Tabs { id };
        let ghost st0 = draw_stack_view(self.draw_state).unwrap();
        let hit: Option<usize> = match self.node(id) {
            Option::Some(DockItem::Tabs { selected, .. }) => Some(*selected),
            _ => None,
        };
        match hit {
            Option::Some(selected) => {
                self.touch_tab_bar(id);
                cx.ops.push(DrawOp::BeginTabBar { id, selected });
                self.push_frame(DrawStackItem::TabLabel { id, index: 0 });
                proof {
                    let st2 = draw_stack_view(final(self).draw_state).unwrap();
                    assert(st2 == st0.push(DrawStackItem::TabLabel { id, index: 0 }));
                    lemma_stack_push(t, st0, DrawStackItem::TabLabel { id, index: 0 });
                    lemma_stack_weight_push(t, st0, DrawStackItem::TabLabel { id, index: 0 });
                    assert(frame_tabs(t, f) == set![id]);
                    assert(touched_tabs(final(self).tab_bars@).union(stack_tabs(t, st2))
                        =~= touched_tabs(old(self).tab_bars@).union(
                        frame_tabs(t, f).union(stack_tabs(t, st0)),
                    ));
                    assert(touched_splits(final(self).splitters@).union(stack_splits(t, st2))
                        =~= touched_splits(old(self).splitters@).union(
                        frame_splits(t, f).union(stack_splits(t, st0)),
                    ));
                    assert forall|i: int|
                        0 <= i < st2.len() implies frame_ok(t, #[trigger] st2[i]) by {
                        if i < st0.len() {
                            assert(st2[i] == st0[i]);
                        } else {
                            assert(st2[i] == DrawStackItem::TabLabel { id, index: 0 });
                        }
                    }
                }
            },
            Option::None => {
                proof {
                    assert(is_tabs_node_at(t, id));
                    assert(false);
                }
            },
        }
    }

    /// The member of the tab list under `id` at `index`, if both exist.
    fn tabs_member(&self, id: ItemId, index: usize) -> (r: Option<ItemId>)
        ensures
            ({
                let t = tree_view(self.dock_items@);
                match r {
                    Option::Some(x) => is_tabs_node_at(t, id) && index
                        < crate::tree::tabs_of(lookup(t, id).unwrap()).len() && x
                        == crate::tree::tabs_of(lookup(t, id).unwrap())[index as int],
                    Option::None => !is_tabs_node_at(t, id) || index >= crate::tree::tabs_of(
                        lookup(t, id).unwrap(),
                    ).len(),
                }
            }),
    {
        match self.node(id) {
            Option::Some(DockItem::Tabs { tabs, .. }) => {
                if index < tabs.len() {
                    Some(tabs[index])
                } else {
                    None
                }
            },
            _ => None,
        }
    }

    /// Act on a label frame: draw one tab label and queue the next, or past
    /// the end close the bar, record the measured rectangle, and, when the
    /// content region needs drawing, open it and queue the selected tab.
    #[verifier::spinoff_prover]
    fn step_tab_label(&mut self, cx: &mut Cx2d, id: ItemId, index: usize)
        requires
            old(self).step_pre(DrawStackItem::TabLabel { id, index }),
        ensures
            final(self).draw_ready(),
            final(self).draw_state matches Option::Some(_),
            final(self).dock_items@ == old(self).dock_items@,
            final(self).templates@ == old(self).templates@,
            final(self).items@ == old(self).items@,
            old(self).items@.is_prefix_of(final(self).items@),
            final(self).area_redraw == old(self).area_redraw,
            old(cx).ops@.is_prefix_of(final(cx).ops@),
            ({
                let t = tree_view(old(self).dock_items@);
                let members = tabs_of(lookup(t, id).unwrap());
                if (index as int) < members.len() {
                    let tab_id2 = members[index as int];
                    if is_tab_at(t, tab_id2) {
                        &&& final(cx).ops@.len() == old(cx).ops@.len() + 1
                        &&& final(cx).ops@.last() matches DrawOp::TabLabel {
                            id: lid,
                            tab_id: tid,
                            name,
                        }
                        &&& lid == id
                        &&& tid == tab_id2
                        &&& name@ == name_of(lookup(t, tab_id2).unwrap())
                    } else {
                        final(cx).ops@ == old(cx).ops@
                    }
                } else {
                    if content_redrawing(old(self).tab_bars@, id, old(self).area_redraw) {
                        final(cx).ops@ == old(cx).ops@.push(DrawOp::EndTabBar { id }).push(
                            DrawOp::BeginContents { id },
                        )
                    } else {
                        final(cx).ops@ == old(cx).ops@.push(DrawOp::EndTabBar { id })
                    }
                }
            }),
            ({
                let t = tree_view(old(self).dock_items@);
                let st0 = draw_stack_view(old(self).draw_state).unwrap();
                let st1 = draw_stack_view(final(self).draw_state).unwrap();
                stack_weight(t, st1) + 1 <= frame_weight(t, DrawStackItem::TabLabel { id, index }) + stack_weight(t, st0)
            }),
            final(cx).turtle_rect == old(cx).turtle_rect,
    {
        let ghost t = tree_view(self.dock_items@);
        let ghost f = DrawStackItem::TabLabel { id, index };
        let ghost st0 = draw_stack_view(self.draw_state).unwrap();
        let hit: Option<(usize, usize)> = match self.node(id) {
            Option::Some(DockItem::Tabs { tabs, selected }) => Some((tabs.len(), *selected)),
            _ => None,
        };
        match hit {
            Option::Some((len, selected)) => {
                if index < len {
                    match self.tabs_member(id, index) {
                        Option::Some(tab_id) => {
                            match self.node(tab_id) {
                                Option::Some(DockItem::Tab { name, .. }) => {
                                    let label = name.clone();
                                    cx.ops.push(DrawOp::TabLabel { id, tab_id, name: label });
                                },
                                _ => {},
                            }
                        },
                        Option::None => {},
                    }
                    self.push_frame(DrawStackItem::TabLabel { id, index: index + 1 });
                    proof {
                        let st2 = draw_stack_view(final(self).draw_state).unwrap();
                        assert(st2 == st0.push(DrawStackItem::TabLabel { id, index: (index + 1) as usize }));
                        lemma_stack_push(t, st0, DrawStackItem::TabLabel { id, index: (index + 1) as usize });
                        lemma_stack_weight_push(
                            t,
                            st0,
                            DrawStackItem::TabLabel { id, index: (index + 1) as usize },
                        );
                        assert(touched_tabs(final(self).tab_bars@).union(stack_tabs(t, st2))
                            =~= touched_tabs(old(self).tab_bars@).union(
                            frame_tabs(t, f).union(stack_tabs(t, st0)),
                        ));
                        assert(touched_splits(final(self).splitters@).union(stack_splits(t, st2))
                            =~= touched_splits(old(self).splitters@).union(
                            frame_splits(t, f).union(stack_splits(t, st0)),
                        ));
                        assert forall|i: int|
                            0 <= i < st2.len() implies frame_ok(t, #[trigger] st2[i]) by {
                            if i < st0.len() {
                                assert(st2[i] == st0[i]);
                            } else {
                                assert(st2[i] == DrawStackItem::TabLabel {
                                    id,
                                    index: (index + 1) as usize,
                                });
                            }
                        }
                    }
                } else {
                    cx.ops.push(DrawOp::EndTabBar { id });
                    let rect = cx.turtle_rect;
                    let area = self.area_redraw;
                    let redrawing = self.close_tab_bar(id, rect, area);
                    if redrawing {
                        cx.ops.push(DrawOp::BeginContents { id });
                        self.push_frame(DrawStackItem::TabContent { id });
                        match self.tabs_member(id, selected) {
                            Option::Some(sel_tab) => {
                                self.push_frame(DrawStackItem::Tab { id: sel_tab });
                                proof {
                                    let st2 = draw_stack_view(final(self).draw_state).unwrap();
                                    assert(st2 == st0.push(DrawStackItem::TabContent { id }).push(
                                        DrawStackItem::Tab { id: sel_tab },
                                    ));
                                    lemma_stack_push(t, st0, DrawStackItem::TabContent { id });
                                    lemma_stack_push(
                                        t,
                                        st0.push(DrawStackItem::TabContent { id }),
                                        DrawStackItem::Tab { id: sel_tab },
                                    );
                                    lemma_stack_weight_push(
                                        t,
                                        st0,
                                        DrawStackItem::TabContent { id },
                                    );
                                    lemma_stack_weight_push(
                                        t,
                                        st0.push(DrawStackItem::TabContent { id }),
                                        DrawStackItem::Tab { id: sel_tab },
                                    );
                                    assert(touched_tabs(final(self).tab_bars@).union(
                                        stack_tabs(t, st2),
                                    ) =~= touched_tabs(old(self).tab_bars@).union(
                                        frame_tabs(t, f).union(stack_tabs(t, st0)),
                                    ));
                                    assert(touched_splits(final(self).splitters@).union(
                                        stack_splits(t, st2),
                                    ) =~= touched_splits(old(self).splitters@).union(
                                        frame_splits(t, f).union(stack_splits(t, st0)),
                                    ));
                                    assert forall|i: int|
                                        0 <= i < st2.len() implies frame_ok(
                                        t,
                                        #[trigger] st2[i],
                                    ) by {
                                        if i < st0.len() {
                                            assert(st2[i] == st0[i]);
                                        } else if i == st0.len() {
                                            assert(st2[i] == DrawStackItem::TabContent { id });
                                        } else {
                                            assert(st2[i] == DrawStackItem::Tab { id: sel_tab });
                                        }
                                    }
                                }
                            },
                            Option::None => {
                                proof {
                                    assert(is_tabs_node_at(t, id));
                                    assert(sel_ok(t));
                                    lemma_first_where(t, key_is::<DockItemV>(id));
                                    let w = first_where(t, key_is::<DockItemV>(id));
                                    assert(crate::tree::is_tabs(t[w].1));
                                    assert(0 < crate::tree::tabs_of(t[w].1).len());
                                    assert(selected < crate::tree::tabs_of(t[w].1).len());
                                    assert(false);
                                }
                            },
                        }
                    } else {
                        proof {
                            lemma_touched_tabs_same_keys_frames(
                                *old(self),
                                *final(self),
                                t,
                                f,
                                st0,
                            );
                        }
                    }
                }
            },
            Option::None => {
                proof {
                    assert(is_tabs_node_at(t, id));
                    assert(false);
                }
            },
        }
    }

    /// Act on a tab frame: resolve the leaf's template and draw its content
    /// widget, materialising it on first encounter. A missing template
    /// draws nothing.
    #[verifier::spinoff_prover]
    fn step_tab(&mut self, cx: &mut Cx2d, id: ItemId)
        requires
            old(self).step_pre(DrawStackItem::Tab { id }),
        ensures
            final(self).draw_ready(),
            final(self).draw_state matches Option::Some(_),
            final(self).dock_items@ == old(self).dock_items@,
            final(self).templates@ == old(self).templates@,
            old(self).items@.is_prefix_of(final(self).items@),
            final(self).area_redraw == old(self).area_redraw,
            old(cx).ops@.is_prefix_of(final(cx).ops@),
            ({
                let t = tree_view(old(self).dock_items@);
                if is_tab_at(t, id) && old(self).templates.has_key(
                    kind_of(lookup(t, id).unwrap()),
                ) {
                    let kind = kind_of(lookup(t, id).unwrap());
                    &&& final(self).items.has_pair(id, kind)
                    &&& old(self).items.has_pair(id, kind) ==> final(self).items@ == old(
                        self,
                    ).items@
                    &&& !old(self).items.has_pair(id, kind) ==> final(self).items@ == old(
                        self,
                    ).items@.push(
                        ((id, kind), WidgetInst { widget: old(self).next_widget_handle }),
                    )
                    &&& final(cx).ops@ == old(cx).ops@.push(
                        DrawOp::DrawWidget {
                            id,
                            kind,
                            widget: final(self).items@[final(self).items.p_idx(id, kind)].1.widget,
                        },
                    )
                } else {
                    final(self).items@ == old(self).items@ && final(cx).ops@ == old(cx).ops@
                }
            }),
            ({
                let t = tree_view(old(self).dock_items@);
                let st0 = draw_stack_view(old(self).draw_state).unwrap();
                let st1 = draw_stack_view(final(self).draw_state).unwrap();
                stack_weight(t, st1) + 1 <= frame_weight(t, DrawStackItem::Tab { id }) + stack_weight(t, st0)
            }),
            final(cx).turtle_rect == old(cx).turtle_rect,
    {
        let ghost t = tree_view(self.dock_items@);
        let ghost f = DrawStackItem::Tab { id };
        let ghost st0 = draw_stack_view(self.draw_state).unwrap();
        let hit: Option<ItemId> = match self.node(id) {
            Option::Some(DockItem::Tab { kind, .. }) => Some(*kind),
            _ => None,
        };
        match hit {
            Option::Some(kind) => {
                let has_template = match self.templates.get(kind) {
                    Option::Some(_) => true,
                    Option::None => false,
                };
                if has_template {
                    let widget = self.get_or_make_widget(id, kind);
                    cx.ops.push(DrawOp::DrawWidget { id, kind, widget });
                }
            },
            Option::None => {},
        }
        proof {
            lemma_touched_tabs_same_keys_frames(*old(self), *final(self), t, f, st0);
        }
    }
}

/// After a step that left the registries' visited sets and the stack
/// unchanged, the pass bookkeeping still holds.
proof fn lemma_touched_tabs_same_keys_frames(
    o: Dock,
    n: Dock,
    t: TreeV,
    f: DrawStackItem,
    st0: Seq<DrawStackItem>,
)
    requires
        o.step_pre(f),
        t == tree_view(o.dock_items@),
        Option::Some(st0) == draw_stack_view(o.draw_state),
        n.dock_items@ == o.dock_items@,
        draw_stack_view(n.draw_state) == Option::Some(st0),
        touched_tabs(n.tab_bars@) == touched_tabs(o.tab_bars@),
        touched_splits(n.splitters@) == touched_splits(o.splitters@),
        n.regs_unique(),
        frame_tabs(t, f) =~= Set::<ItemId>::empty(),
        frame_splits(t, f) =~= Set::<ItemId>::empty(),
    ensures
        n.draw_mid(),
        n.draw_ready(),
{
    assert(touched_tabs(n.tab_bars@).union(stack_tabs(t, st0)) =~= touched_tabs(
        o.tab_bars@,
    ).union(frame_tabs(t, f).union(stack_tabs(t, st0))));
    assert(touched_splits(n.splitters@).union(stack_splits(t, st0)) =~= touched_splits(
        o.splitters@,
    ).union(frame_splits(t, f).union(stack_splits(t, st0))));
}


/// Prefix order on logs is transitive.
pub proof fn lemma_prefix_trans<T>(a: Seq<T>, b: Seq<T>, c: Seq<T>)
    requires
        a.is_prefix_of(b),
        b.is_prefix_of(c),
    ensures
        a.is_prefix_of(c),
{
    assert(a =~= c.subrange(0, a.len() as int));
}

/// Appending keeps every previous log a prefix.
pub proof fn lemma_prefix_push<T>(a: Seq<T>, b: Seq<T>, x: T)
    requires
        a.is_prefix_of(b),
    ensures
        a.is_prefix_of(b.push(x)),
{
    assert(a =~= b.push(x).subrange(0, a.len() as int));
}

impl Dock {
    /// Emit the corner decorations drawn over every splitter boundary.
    fn draw_corner_ops(&self, cx: &mut Cx2d)
        ensures
            old(cx).ops@.is_prefix_of(final(cx).ops@),
            final(cx).turtle_rect == old(cx).turtle_rect,
    {
        let n = self.splitters.entries.len();
        let mut i: usize = 0;
        while i < n
            invariant
                n == self.splitters@.len(),
                i <= n,
                old(cx).ops@.is_prefix_of(cx.ops@),
                cx.turtle_rect == old(cx).turtle_rect,
            decreases n - i,
        {
            let id = self.splitters.entries[i].0;
            let ghost before = cx.ops@;
            cx.ops.push(DrawOp::SplitterCorners { id });
            proof {
                assert(before.is_prefix_of(cx.ops@)) by {
                    assert(before =~= cx.ops@.subrange(0, before.len() as int));
                }
                lemma_prefix_trans(old(cx).ops@, before, cx.ops@);
            }
            i = i + 1;
        }
        proof {
            assert(old(cx).ops@.is_prefix_of(old(cx).ops@)) by {
                assert(old(cx).ops@ =~= old(cx).ops@.subrange(0, old(cx).ops@.len() as int));
            }
        }
    }

    /// Run the draw traversal for at most `max_steps` frames. On the first
    /// call of a pass the stack is seeded from the tree root; the walk then
    /// pops frames, lazily materialising tab bars, splitter instances and
    /// content widgets, and emitting drawing commands. When the stack
    /// empties, the registries are swept down to what this pass visited,
    /// the corner decorations are emitted and the pass ends. When the step
    /// budget runs out first, the stack stays persisted and a later call
    /// resumes exactly there; a budget above the pending frame count
    /// (`draw_work`) is promised to finish the pass.
    ///
    /// A finished pass leaves the tab-bar registry keyed by exactly the
    /// tabs nodes reachable from the root, and the splitter registry by
    /// exactly the reachable splitters: a second pass over an unchanged
    /// tree materialises the same sets again.
    #[verifier::spinoff_prover]
    pub fn draw_walk_widget(&mut self, cx: &mut Cx2d, max_steps: usize) -> (done: bool)
        requires
            old(self).draw_ready(),
        ensures
            final(self).draw_ready(),
            final(self).dock_items@ == old(self).dock_items@,
            final(self).templates@ == old(self).templates@,
            old(self).items@.is_prefix_of(final(self).items@),
            forall|k: int|
                old(self).items@.len() <= k < final(self).items@.len() ==> item_entry_from_tab(
                    tree_view(old(self).dock_items@),
                    old(self).templates,
                    #[trigger] final(self).items@[k],
                ),
            forall|k: int|
                old(self).items@.len() <= k < final(self).items@.len() ==> !old(
                    self,
                ).items.has_pair(
                    (#[trigger] final(self).items@[k]).0.0,
                    final(self).items@[k].0.1,
                ),
            old(cx).ops@.is_prefix_of(final(cx).ops@),
            final(cx).turtle_rect == old(cx).turtle_rect,
            done <==> (final(self).draw_state matches Option::None),
            max_steps > old(self).draw_work() ==> done,
            done ==> ({
                let t = tree_view(old(self).dock_items@);
                &&& forall|x: ItemId|
                    #[trigger] final(self).tab_bars.has_key(x) <==> tabs_reach(
                        t,
                        root_id(),
                        fuel_of(t),
                    ).contains(x)
                &&& forall|x: ItemId|
                    #[trigger] final(self).splitters.has_key(x) <==> split_reach(
                        t,
                        root_id(),
                        fuel_of(t),
                    ).contains(x)
                &&& !final(self).area_redraw
            }),
    {
        proof {
            assert(old(self).items@.is_prefix_of(self.items@)) by {
                assert(old(self).items@ =~= self.items@.subrange(0, old(self).items@.len() as int));
            }
            assert(old(cx).ops@.is_prefix_of(cx.ops@)) by {
                assert(old(cx).ops@ =~= cx.ops@.subrange(0, old(cx).ops@.len() as int));
            }
        }
        let begin = match &self.draw_state {
            Option::Some(_) => false,
            Option::None => true,
        };
        if begin {
            let root = ItemId(ROOT_ID);
            let frame = {
                let item = self.node(root);
                DrawStackItem::from_dock_item(root, item)
            };
            let mut stack: Vec<DrawStackItem> = Vec::new();
            stack.push(frame);
            self.draw_state = Option::Some(DrawState { stack });
            let ghost before = cx.ops@;
            cx.ops.push(DrawOp::BeginDock);
            proof {
                let t = tree_view(self.dock_items@);
                lemma_start_frame(t, root, frame);
                let st = draw_stack_view(self.draw_state).unwrap();
                assert(st.last() == frame && st.drop_last() =~= Seq::<DrawStackItem>::empty());
                assert(st.drop_last() == Seq::<DrawStackItem>::empty());
                assert(stack_tabs(t, Seq::<DrawStackItem>::empty()) =~= Set::<ItemId>::empty());
                assert(stack_splits(t, Seq::<DrawStackItem>::empty()) =~= Set::<ItemId>::empty());
                assert(stack_tabs(t, st) == frame_tabs(t, frame).union(
                    Set::<ItemId>::empty(),
                ));
                assert(stack_splits(t, st) == frame_splits(t, frame).union(
                    Set::<ItemId>::empty(),
                ));
                assert(touched_tabs(self.tab_bars@) =~= Set::<ItemId>::empty());
                assert(touched_splits(self.splitters@) =~= Set::<ItemId>::empty());
                assert(touched_tabs(self.tab_bars@).union(stack_tabs(t, st)) =~= tabs_reach(
                    t,
                    root_id(),
                    fuel_of(t),
                ));
                assert(touched_splits(self.splitters@).union(stack_splits(t, st)) =~= split_reach(
                    t,
                    root_id(),
                    fuel_of(t),
                ));
                assert forall|i: int| 0 <= i < st.len() implies frame_ok(t, #[trigger] st[i]) by {
                    assert(st[i] == frame);
                }
                assert(self.draw_mid());
                assert(stack_weight(t, st) == frame_weight(t, frame) + stack_weight(
                    t,
                    Seq::<DrawStackItem>::empty(),
                ));
                assert(stack_weight(t, st) == old(self).draw_work());
                lemma_prefix_push(old(cx).ops@, before, DrawOp::BeginDock);
            }
        }
        let mut steps = max_steps;
        while steps > 0
            invariant
                self.draw_ready(),
                self.draw_state matches Option::Some(_),
                max_steps > old(self).draw_work() ==> steps > stack_weight(
                    tree_view(old(self).dock_items@),
                    draw_stack_view(self.draw_state).unwrap(),
                ),
                self.dock_items@ == old(self).dock_items@,
                self.templates@ == old(self).templates@,
                old(self).items@.is_prefix_of(self.items@),
                forall|k: int|
                    old(self).items@.len() <= k < self.items@.len() ==> item_entry_from_tab(
                        tree_view(old(self).dock_items@),
                        old(self).templates,
                        #[trigger] self.items@[k],
                    ),
                forall|k: int|
                    old(self).items@.len() <= k < self.items@.len() ==> !old(self).items.has_pair(
                        (#[trigger] self.items@[k]).0.0,
                        self.items@[k].0.1,
                    ),
                old(cx).ops@.is_prefix_of(cx.ops@),
                cx.turtle_rect == old(cx).turtle_rect,
            decreases steps,
        {
            let ghost pre = *self;
            let ghost pre_stack = draw_stack_view(self.draw_state).unwrap();
            let frame_opt = match &mut self.draw_state {
                Option::Some(ds) => ds.stack.pop(),
                Option::None => Option::None,
            };
            match frame_opt {
                Option::None => {
                    proof {
                        let t = tree_view(self.dock_items@);
                        assert(pre_stack.len() == 0);
                        assert(stack_tabs(t, pre_stack) =~= Set::<ItemId>::empty());
                        assert(stack_splits(t, pre_stack) =~= Set::<ItemId>::empty());
                        assert(touched_tabs(self.tab_bars@) =~= touched_tabs(
                            self.tab_bars@,
                        ).union(stack_tabs(t, pre_stack)));
                        assert(touched_splits(self.splitters@) =~= touched_splits(
                            self.splitters@,
                        ).union(stack_splits(t, pre_stack)));
                    }
                    let ghost touched_tb = touched_tabs(self.tab_bars@);
                    let ghost touched_sp = touched_splits(self.splitters@);
                    proof {
                        let t = tree_view(self.dock_items@);
                        assert(touched_tb == tabs_reach(t, root_id(), fuel_of(t)));
                        assert(touched_sp == split_reach(t, root_id(), fuel_of(t)));
                    }
                    self.sweep_tab_bars();
                    let ghost after_tb = *self;
                    self.sweep_splitters();
                    let ghost after_sweep = *self;
                    let ghost ops1 = cx.ops@;
                    self.draw_corner_ops(cx);
                    let ghost ops2 = cx.ops@;
                    cx.ops.push(DrawOp::EndDock);
                    self.draw_state = Option::None;
                    self.area_redraw = false;
                    proof {
                        lemma_prefix_push(ops1, ops2, DrawOp::EndDock);
                        lemma_prefix_trans(old(cx).ops@, ops1, cx.ops@);
                        let t = tree_view(old(self).dock_items@);
                        assert forall|x: ItemId|
                            #[trigger] final(self).tab_bars.has_key(x) <==> touched_tb.contains(
                            x,
                        ) by {
                            assert(after_tb.tab_bars.has_key(x) <==> touched_tb.contains(x));
                            assert(final(self).tab_bars@ == after_tb.tab_bars@);
                        }
                        assert forall|x: ItemId|
                            #[trigger] final(self).splitters.has_key(x) <==> touched_sp.contains(
                            x,
                        ) by {
                            assert(after_sweep.splitters.has_key(x) <==> touched_sp.contains(x));
                            assert(final(self).splitters@ == after_sweep.splitters@);
                        }
                    }
                    return true;
                },
                Option::Some(frame) => {
                    proof {
                        let t = tree_view(self.dock_items@);
                        let st2 = draw_stack_view(self.draw_state).unwrap();
                        assert(pre_stack.len() > 0);
                        assert(frame == pre_stack.last());
                        assert(st2 =~= pre_stack.drop_last());
                        assert(st2 == pre_stack.drop_last());
                        assert(stack_tabs(t, pre_stack) == frame_tabs(t, frame).union(
                            stack_tabs(t, st2),
                        ));
                        assert(stack_splits(t, pre_stack) == frame_splits(t, frame).union(
                            stack_splits(t, st2),
                        ));
                        assert(frame_ok(t, frame)) by {
                            assert(pre_stack[pre_stack.len() - 1] == frame);
                        }
                        assert(stack_weight(t, pre_stack) == frame_weight(t, frame)
                            + stack_weight(t, st2));
                        lemma_frame_weight_pos(t, frame);
                        assert forall|i: int|
                            0 <= i < st2.len() implies frame_ok(t, #[trigger] st2[i]) by {
                            assert(st2[i] == pre_stack[i]);
                        }
                        assert(self.step_pre(frame));
                    }
                    let ghost mid = *self;
                    let ghost ops_mid = cx.ops@;
                    let ghost items_mid = self.items@;
                    match frame {
                        DrawStackItem::Invalid => {
                            proof {
                                let t = tree_view(self.dock_items@);
                                lemma_touched_tabs_same_keys_frames(
                                    *self,
                                    *self,
                                    t,
                                    frame,
                                    draw_stack_view(self.draw_state).unwrap(),
                                );
                            }
                        },
                        DrawStackItem::SplitLeft { id } => {
                            self.step_split_left(cx, id);
                        },
                        DrawStackItem::SplitRight { id } => {
                            self.step_split_right(cx, id);
                        },
                        DrawStackItem::SplitEnd { id } => {
                            cx.ops.push(DrawOp::EndSplitter { id });
                            proof {
                                let t = tree_view(self.dock_items@);
                                lemma_touched_tabs_same_keys_frames(
                                    *self,
                                    *self,
                                    t,
                                    frame,
                                    draw_stack_view(self.draw_state).unwrap(),
                                );
                                lemma_prefix_push(ops_mid, ops_mid, DrawOp::EndSplitter { id });
                            }
                        },
                        DrawStackItem::Tabs { id } => {
                            self.step_tabs(cx, id);
                        },
                        DrawStackItem::TabLabel { id, index } => {
                            self.step_tab_label(cx, id, index);
                        },
                        DrawStackItem::Tab { id } => {
                            self.step_tab(cx, id);
                        },
                        DrawStackItem::TabContent { id } => {
                            cx.ops.push(DrawOp::EndContents { id });
                            proof {
                                let t = tree_view(self.dock_items@);
                                lemma_touched_tabs_same_keys_frames(
                                    *self,
                                    *self,
                                    t,
                                    frame,
                                    draw_stack_view(self.draw_state).unwrap(),
                                );
                                lemma_prefix_push(ops_mid, ops_mid, DrawOp::EndContents { id });
                            }
                        },
                    }
                    proof {
                        if max_steps > old(self).draw_work() {
                            let t = tree_view(old(self).dock_items@);
                            let st1 = draw_stack_view(self.draw_state).unwrap();
                            assert(stack_weight(t, st1) + 1 <= stack_weight(t, pre_stack));
                        }
                        lemma_prefix_trans(old(cx).ops@, ops_mid, cx.ops@);
                        lemma_prefix_trans(old(self).items@, items_mid, self.items@);
                        assert forall|k: int|
                            old(self).items@.len() <= k < self.items@.len() implies item_entry_from_tab(
                            tree_view(old(self).dock_items@),
                            old(self).templates,
                            #[trigger] self.items@[k],
                        ) by {
                            if k < items_mid.len() {
                                assert(self.items@[k] == items_mid[k]);
                                assert(items_mid[k] == mid.items@[k]);
                            } else {
                                assert(old(self).templates@ == mid.templates@);
                            }
                        }
                        assert forall|k: int|
                            old(self).items@.len() <= k < self.items@.len() implies !old(
                            self,
                        ).items.has_pair(
                            (#[trigger] self.items@[k]).0.0,
                            self.items@[k].0.1,
                        ) by {
                            if k < items_mid.len() {
                                assert(self.items@[k] == items_mid[k]);
                                assert(items_mid[k] == mid.items@[k]);
                            } else {
                                let a = self.items@[k].0.0;
                                let b = self.items@[k].0.1;
                                if old(self).items.has_pair(a, b) {
                                    let w = first_where(old(self).items@, pair_is(a, b));
                                    lemma_first_where(old(self).items@, pair_is(a, b));
                                    assert(pair_is(a, b)(old(self).items@[w]));
                                    assert(mid.items@[w] == old(self).items@[w]);
                                    lemma_first_where_found(mid.items@, pair_is(a, b), w);
                                    assert(false);
                                }
                            }
                        }
                    }
                },
            }
            steps = steps - 1;
        }
        false
    }
}


impl Dock {
    /// Fetch the content widget materialised for `entry_id` from the given
    /// template kind: an unknown template yields nothing; otherwise the
    /// handle stored under `(entry_id, template)`, created fresh the first
    /// time and returned unchanged ever after.
    pub fn get_item(&mut self, entry_id: ItemId, template: ItemId) -> (r: Option<u64>)
        requires
            old(self).items.keys_unique(),
        ensures
            final(self).items.keys_unique(),
            old(self).items@.is_prefix_of(final(self).items@),
            (r matches Option::None) <==> !old(self).templates.has_key(template),
            r matches Option::Some(w) ==> final(self).items.has_pair(entry_id, template) && w
                == final(self).items@[final(self).items.p_idx(entry_id, template)].1.widget,
            old(self).templates.has_key(template) && old(self).items.has_pair(entry_id, template)
                ==> final(self).items@ == old(self).items@,
            old(self).templates.has_key(template) && !old(self).items.has_pair(entry_id, template)
                ==> final(self).items@ == old(self).items@.push(
                ((entry_id, template), WidgetInst { widget: old(self).next_widget_handle }),
            ),
            !old(self).templates.has_key(template) ==> final(self).items@ == old(self).items@,
            final(self).dock_items@ == old(self).dock_items@,
            final(self).templates@ == old(self).templates@,
            final(self).tab_bars@ == old(self).tab_bars@,
            final(self).splitters@ == old(self).splitters@,
            final(self).draw_state == old(self).draw_state,
            final(self).area_redraw == old(self).area_redraw,
    {
        let has = match self.templates.get(template) {
            Option::Some(_) => true,
            Option::None => false,
        };
        if has {
            Some(self.get_or_make_widget(entry_id, template))
        } else {
            proof {
                assert(old(self).items@ =~= final(self).items@.subrange(
                    0,
                    old(self).items@.len() as int,
                ));
            }
            None
        }
    }
}

/// The four corner-decoration quads for a rectangle: one per corner, each
/// of the rounding radius' size, flipped towards its corner.
pub open spec fn corner_quads(radius: i64, rect: Rect) -> Seq<DrawOp> {
    seq![
        DrawOp::CornerQuad {
            rect: Rect { pos: rect.pos, size: Vec2 { x: radius, y: radius } },
            flip_x: false,
            flip_y: false,
        },
        DrawOp::CornerQuad {
            rect: Rect {
                pos: Vec2 { x: (rect.pos.x + rect.size.x - radius) as i64, y: rect.pos.y },
                size: Vec2 { x: radius, y: radius },
            },
            flip_x: true,
            flip_y: false,
        },
        DrawOp::CornerQuad {
            rect: Rect {
                pos: Vec2 {
                    x: (rect.pos.x + rect.size.x - radius) as i64,
                    y: (rect.pos.y + rect.size.y - radius) as i64,
                },
                size: Vec2 { x: radius, y: radius },
            },
            flip_x: true,
            flip_y: true,
        },
        DrawOp::CornerQuad {
            rect: Rect {
                pos: Vec2 { x: rect.pos.x, y: (rect.pos.y + rect.size.y - radius) as i64 },
                size: Vec2 { x: radius, y: radius },
            },
            flip_x: false,
            flip_y: true,
        },
    ]
}

/// The rounded-corner decoration painter.
#[derive(Clone, Copy, Debug, PartialEq, Eq, Structural)]
pub struct DrawRoundCorner {
    pub border_radius: i64,
}

impl DrawRoundCorner {
    /// Paint the four corner quads of `rect`, one per corner, flipping the
    /// rounding towards each.
    pub fn draw_corners(&mut self, cx: &mut Cx2d, rect: Rect)
        requires
            rect.wf(),
            0 <= old(self).border_radius <= crate::geom::COORD_LIMIT,
        ensures
            *final(self) == *old(self),
            final(cx).ops@ == old(cx).ops@ + corner_quads(old(self).border_radius, rect),
            final(cx).turtle_rect == old(cx).turtle_rect,
    {
        let rad = self.border_radius;
        let size = Vec2 { x: rad, y: rad };
        cx.ops.push(
            DrawOp::CornerQuad { rect: Rect { pos: rect.pos, size }, flip_x: false, flip_y: false },
        );
        cx.ops.push(
            DrawOp::CornerQuad {
                rect: Rect {
                    pos: Vec2 { x: rect.pos.x + rect.size.x - rad, y: rect.pos.y },
                    size,
                },
                flip_x: true,
                flip_y: false,
            },
        );
        cx.ops.push(
            DrawOp::CornerQuad {
                rect: Rect {
                    pos: Vec2 {
                        x: rect.pos.x + rect.size.x - rad,
                        y: rect.pos.y + rect.size.y - rad,
                    },
                    size,
                },
                flip_x: true,
                flip_y: true,
            },
        );
        cx.ops.push(
            DrawOp::CornerQuad {
                rect: Rect {
                    pos: Vec2 { x: rect.pos.x, y: rect.pos.y + rect.size.y - rad },
                    size,
                },
                flip_x: false,
                flip_y: true,
            },
        );
        proof {
            assert(final(cx).ops@ =~= old(cx).ops@ + corner_quads(old(self).border_radius, rect));
        }
    }
}

/// Running the draw traversal twice with no intervening mutation
/// materialises the same registry entries: a completed pass leaves each
/// registry keyed by exactly what the unchanged tree reaches from the root,
/// so any two completed passes over the same tree agree key for key.
pub proof fn lemma_draw_registries_idempotent(d1: Dock, d2: Dock)
    requires
        tree_view(d1.dock_items@) == tree_view(d2.dock_items@),
        forall|x: ItemId|
            #[trigger] d1.tab_bars.has_key(x) <==> tabs_reach(
                tree_view(d1.dock_items@),
                root_id(),
                fuel_of(tree_view(d1.dock_items@)),
            ).contains(x),
        forall|x: ItemId|
            #[trigger] d2.tab_bars.has_key(x) <==> tabs_reach(
                tree_view(d2.dock_items@),
                root_id(),
                fuel_of(tree_view(d2.dock_items@)),
            ).contains(x),
        forall|x: ItemId|
            #[trigger] d1.splitters.has_key(x) <==> split_reach(
                tree_view(d1.dock_items@),
                root_id(),
                fuel_of(tree_view(d1.dock_items@)),
            ).contains(x),
        forall|x: ItemId|
            #[trigger] d2.splitters.has_key(x) <==> split_reach(
                tree_view(d2.dock_items@),
                root_id(),
                fuel_of(tree_view(d2.dock_items@)),
            ).contains(x),
    ensures
        forall|x: ItemId| #[trigger] d1.tab_bars.has_key(x) <==> d2.tab_bars.has_key(x),
        forall|x: ItemId| #[trigger] d1.splitters.has_key(x) <==> d2.splitters.has_key(x),
{
}

} // verus!
