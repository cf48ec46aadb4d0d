//! The dock layout tree: nodes, their mathematical view, the tree invariant,
//! and the transition functions that describe every structural mutation.
//!
//! A tree is an insertion-ordered mapping from [`ItemId`] to [`DockItem`].
//! Mutations scan the mapping in order and act on the first matching entry,
//! so each transition below is phrased with `first_where`.

use vstd::prelude::*;

use crate::idmap::{first_where, key_is, seq_remove_key, ItemId};

verus! {

/// The direction a splitter divides its region in.
#[derive(Clone, Copy, Debug, PartialEq, Eq, Structural)]
pub enum Axis {
    Horizontal,
    Vertical,
}

/// The split-ratio policy of a splitter: a weighted fraction of the whole
/// extent, or a fixed offset from one side, all in whole device units chosen
/// by the host.
#[derive(Clone, Copy, Debug, PartialEq, Eq, Structural)]
pub enum SplitterAlign {
    FromA(u64),
    FromB(u64),
    Weighted(u64),
}

/// One node of the layout tree.
#[derive(Clone, Debug)]
pub enum DockItem {
    /// Divides a region in two; `a` and `b` name the child nodes.
    Splitter { axis: Axis, align: SplitterAlign, a: ItemId, b: ItemId },
    /// A tab strip over a set of `Tab` leaves; `selected` indexes `tabs`.
    Tabs { tabs: Vec<ItemId>, selected: usize },
    /// A leaf bound to the content-widget template named by `kind`.
    Tab { name: String, no_close: bool, kind: ItemId },
}

/// The mathematical shape of a node.
pub enum DockItemV {
    Splitter { axis: Axis, align: SplitterAlign, a: ItemId, b: ItemId },
    Tabs { tabs: Seq<ItemId>, selected: int },
    Tab { name: Seq<char>, no_close: bool, kind: ItemId },
}

impl View for DockItem {
    type V = DockItemV;

    open spec fn view(&self) -> DockItemV {
        match self {
            DockItem::Splitter { axis, align, a, b } => DockItemV::Splitter {
                axis: *axis,
                align: *align,
                a: *a,
                b: *b,
            },
            DockItem::Tabs { tabs, selected } => DockItemV::Tabs {
                tabs: tabs@,
                selected: *selected as int,
            },
            DockItem::Tab { name, no_close, kind } => DockItemV::Tab {
                name: name@,
                no_close: *no_close,
                kind: *kind,
            },
        }
    }
}

/// The view of a whole tree: the entries, each with its node viewed.
pub type TreeV = Seq<(ItemId, DockItemV)>;

pub open spec fn tree_view(s: Seq<(ItemId, DockItem)>) -> TreeV {
    Seq::new(s.len(), |i: int| (s[i].0, s[i].1@))
}

pub open spec fn is_splitter(x: DockItemV) -> bool {
    x matches DockItemV::Splitter { .. }
}

pub open spec fn is_tabs(x: DockItemV) -> bool {
    x matches DockItemV::Tabs { .. }
}

pub open spec fn is_tab(x: DockItemV) -> bool {
    x matches DockItemV::Tab { .. }
}

pub open spec fn child_a(x: DockItemV) -> ItemId {
    match x {
        DockItemV::Splitter { a, .. } => a,
        _ => ItemId(0),
    }
}

pub open spec fn child_b(x: DockItemV) -> ItemId {
    match x {
        DockItemV::Splitter { b, .. } => b,
        _ => ItemId(0),
    }
}

pub open spec fn axis_of(x: DockItemV) -> Axis {
    match x {
        DockItemV::Splitter { axis, .. } => axis,
        _ => Axis::Horizontal,
    }
}

pub open spec fn align_of(x: DockItemV) -> SplitterAlign {
    match x {
        DockItemV::Splitter { align, .. } => align,
        _ => SplitterAlign::Weighted(0),
    }
}

pub open spec fn tabs_of(x: DockItemV) -> Seq<ItemId> {
    match x {
        DockItemV::Tabs { tabs, .. } => tabs,
        _ => Seq::empty(),
    }
}

pub open spec fn sel_of(x: DockItemV) -> int {
    match x {
        DockItemV::Tabs { selected, .. } => selected,
        _ => 0,
    }
}

pub open spec fn kind_of(x: DockItemV) -> ItemId {
    match x {
        DockItemV::Tab { kind, .. } => kind,
        _ => ItemId(0),
    }
}

pub open spec fn name_of(x: DockItemV) -> Seq<char> {
    match x {
        DockItemV::Tab { name, .. } => name,
        _ => Seq::empty(),
    }
}

/// A splitter node with `x` as one of its children.
pub open spec fn splitter_has_child(item: DockItemV, x: ItemId) -> bool {
    is_splitter(item) && (child_a(item) == x || child_b(item) == x)
}

/// A tabs node listing `x`.
pub open spec fn tabs_has(item: DockItemV, x: ItemId) -> bool {
    is_tabs(item) && tabs_of(item).contains(x)
}

pub open spec fn tabs_with(x: ItemId) -> spec_fn((ItemId, DockItemV)) -> bool {
    |e: (ItemId, DockItemV)| tabs_has(e.1, x)
}

pub open spec fn splitter_with(x: ItemId) -> spec_fn((ItemId, DockItemV)) -> bool {
    |e: (ItemId, DockItemV)| splitter_has_child(e.1, x)
}

/// Matching an identifier, for first-occurrence scans inside a tab list.
pub open spec fn id_is(x: ItemId) -> spec_fn(ItemId) -> bool {
    |y: ItemId| y == x
}

/// The first position of `x` in `q`, or `-1`.
pub open spec fn id_idx(q: Seq<ItemId>, x: ItemId) -> int {
    first_where(q, id_is(x))
}

/// The node stored under `id`, if any.
pub open spec fn lookup(t: TreeV, id: ItemId) -> Option<DockItemV> {
    let i = first_where(t, key_is(id));
    if i < 0 {
        Option::None
    } else {
        Option::Some(t[i].1)
    }
}

/// The identifiers a node refers to inside the tree: a splitter's children
/// and a tabs node's members. A tab's `kind` names a template, not a node.
pub open spec fn refs_of(x: DockItemV) -> Seq<ItemId> {
    match x {
        DockItemV::Splitter { a, b, .. } => seq![a, b],
        DockItemV::Tabs { tabs, .. } => tabs,
        DockItemV::Tab { .. } => Seq::empty(),
    }
}

pub open spec fn keys_unique(t: TreeV) -> bool {
    forall|i: int, j: int| 0 <= i < j < t.len() ==> (#[trigger] t[i]).0 != (#[trigger] t[j]).0
}

/// Every tabs node has at least one tab and a selected index inside it.
pub open spec fn sel_ok(t: TreeV) -> bool {
    forall|i: int|
        0 <= i < t.len() && is_tabs((#[trigger] t[i]).1) ==> 0 < tabs_of(t[i].1).len() && 0
            <= sel_of(t[i].1) < tabs_of(t[i].1).len()
}

/// Every identifier a node refers to resolves to an entry of the tree.
pub open spec fn refs_ok(t: TreeV) -> bool {
    forall|i: int, p: int|
        0 <= i < t.len() && 0 <= p < refs_of(t[i].1).len() ==> first_where(
            t,
            key_is::<DockItemV>(#[trigger] refs_of((#[trigger] t[i]).1)[p]),
        ) >= 0
}

/// No identifier is referred to twice: the tree has no shared children, so
/// each node has at most one parent slot.
pub open spec fn refs_unique(t: TreeV) -> bool {
    forall|i: int, p: int, j: int, q: int|
        0 <= i < t.len() && 0 <= p < refs_of(t[i].1).len() && 0 <= j < t.len() && 0 <= q < refs_of(
            t[j].1,
        ).len() && (i != j || p != q) ==> #[trigger] refs_of(t[i].1)[p] != #[trigger] refs_of(
            t[j].1,
        )[q]
}

/// The entry under `id` exists and is a `Tab` leaf.
pub open spec fn is_tab_at(t: TreeV, id: ItemId) -> bool {
    let w = first_where(t, key_is::<DockItemV>(id));
    w >= 0 && is_tab(t[w].1)
}

/// The entry under `id` exists and is a tabs node.
pub open spec fn is_tabs_at(t: TreeV, id: ItemId) -> bool {
    let w = first_where(t, key_is::<DockItemV>(id));
    w >= 0 && is_tabs(t[w].1)
}

/// Every member of a tabs node resolves to a `Tab` leaf.
pub open spec fn tabs_typed(t: TreeV) -> bool {
    forall|i: int, p: int|
        0 <= i < t.len() && is_tabs((#[trigger] t[i]).1) && 0 <= p < tabs_of(t[i].1).len()
            ==> is_tab_at(t, #[trigger] tabs_of(t[i].1)[p])
}

/// The whole tree invariant.
pub open spec fn tree_wf(t: TreeV) -> bool {
    keys_unique(t) && sel_ok(t) && refs_ok(t) && refs_unique(t) && tabs_typed(t)
}

/// Nothing in the tree refers to `id`.
pub open spec fn no_refs_to(t: TreeV, id: ItemId) -> bool {
    forall|i: int, p: int|
        0 <= i < t.len() && 0 <= p < refs_of((#[trigger] t[i]).1).len() ==> #[trigger] refs_of(
            t[i].1,
        )[p] != id
}

/// Every tabs node not keyed `x` has a valid selection.
pub open spec fn sel_ok_except(t: TreeV, x: ItemId) -> bool {
    forall|i: int|
        0 <= i < t.len() && (#[trigger] t[i]).0 != x && is_tabs(t[i].1) ==> 0 < tabs_of(
            t[i].1,
        ).len() && 0 <= sel_of(t[i].1) < tabs_of(t[i].1).len()
}

/// Node `what`'s slot in a splitter rewritten to `repl`; the `a` slot is
/// checked first. Nodes of other shapes are left alone.
pub open spec fn replace_child(x: DockItemV, what: ItemId, repl: ItemId) -> DockItemV {
    match x {
        DockItemV::Splitter { axis, align, a, b } => if a == what {
            DockItemV::Splitter { axis, align, a: repl, b }
        } else if b == what {
            DockItemV::Splitter { axis, align, a, b: repl }
        } else {
            x
        },
        _ => x,
    }
}

/// What `set_parent_split` does: the first splitter with `what` as a child
/// has that slot rewritten to `repl`; if there is none, nothing changes.
pub open spec fn set_parent_split_spec(t: TreeV, what: ItemId, repl: ItemId) -> TreeV {
    let i = first_where(t, splitter_with(what));
    if i < 0 {
        t
    } else {
        t.update(i, (t[i].0, replace_child(t[i].1, what, repl)))
    }
}

/// What `select_tab` does: the first tabs node listing `tab_id` gets its
/// selected index set to the position of `tab_id`; otherwise nothing changes.
pub open spec fn select_tab_spec(t: TreeV, tab_id: ItemId) -> TreeV {
    let j = first_where(t, tabs_with(tab_id));
    if j < 0 {
        t
    } else {
        t.update(
            j,
            (
                t[j].0,
                DockItemV::Tabs {
                    tabs: tabs_of(t[j].1),
                    selected: id_idx(tabs_of(t[j].1), tab_id),
                },
            ),
        )
    }
}

/// What `unsplit_tabs` does: the first splitter with `tabs_id` as a child is
/// dissolved. The sibling child takes the splitter's place in whatever
/// splitter pointed at it, and both the splitter and the `tabs_id` node are
/// removed. With no such splitter nothing changes.
pub open spec fn unsplit_tabs_spec(t: TreeV, tabs_id: ItemId) -> TreeV {
    let i = first_where(t, splitter_with(tabs_id));
    if i < 0 {
        t
    } else {
        let sp = t[i].0;
        let sib = if child_a(t[i].1) == tabs_id {
            child_b(t[i].1)
        } else {
            child_a(t[i].1)
        };
        seq_remove_key(seq_remove_key(set_parent_split_spec(t, sp, sib), sp), tabs_id)
    }
}

/// What the splitter-changed action does: the splitter stored under
/// `panel_id`, if any, adopts the reported axis and alignment in place.
pub open spec fn splitter_changed_spec(
    t: TreeV,
    panel_id: ItemId,
    axis: Axis,
    align: SplitterAlign,
) -> TreeV {
    let k = first_where(t, key_is::<DockItemV>(panel_id));
    if k >= 0 && is_splitter(t[k].1) {
        t.update(
            k,
            (
                panel_id,
                DockItemV::Splitter { axis, align, a: child_a(t[k].1), b: child_b(t[k].1) },
            ),
        )
    } else {
        t
    }
}

/// What the tab-pressed action does: if the tabs node stored under
/// `panel_id` lists `tab_id`, its selection moves there; otherwise nothing
/// changes.
pub open spec fn tab_pressed_spec(t: TreeV, panel_id: ItemId, tab_id: ItemId) -> TreeV {
    let k = first_where(t, key_is::<DockItemV>(panel_id));
    if k >= 0 && is_tabs(t[k].1) && tabs_of(t[k].1).contains(tab_id) {
        t.update(
            k,
            (
                panel_id,
                DockItemV::Tabs {
                    tabs: tabs_of(t[k].1),
                    selected: id_idx(tabs_of(t[k].1), tab_id),
                },
            ),
        )
    } else {
        t
    }
}

/// The sibling that `unsplit_tabs` re-links, for a found splitter.
pub open spec fn unsplit_sibling(t: TreeV, tabs_id: ItemId) -> ItemId {
    let i = first_where(t, splitter_with(tabs_id));
    if child_a(t[i].1) == tabs_id {
        child_b(t[i].1)
    } else {
        child_a(t[i].1)
    }
}

/// What `close_tab` does. The first tabs node listing `tab_id` loses that
/// entry. If tabs remain, the selected index is clamped to the new length
/// (the last tab when it pointed past the end), and the `tab_id` node is
/// removed from the tree. If none remain, the `tab_id` node is removed and
/// the owning tabs node is dissolved through `unsplit_tabs`; the owner is
/// removed even when it was the root and no splitter pointed at it.
pub open spec fn close_tab_spec(t: TreeV, tab_id: ItemId) -> TreeV {
    let j = first_where(t, tabs_with(tab_id));
    if j < 0 {
        t
    } else {
        let owner = t[j].0;
        let tb = tabs_of(t[j].1);
        let sel = sel_of(t[j].1);
        let tb2 = tb.remove(id_idx(tb, tab_id));
        let t1 = t.update(j, (owner, DockItemV::Tabs { tabs: tb2, selected: sel }));
        if tb2.len() == 0 {
            seq_remove_key(unsplit_tabs_spec(seq_remove_key(t1, tab_id), owner), owner)
        } else {
            let next = if sel >= tb2.len() {
                tb2[tb2.len() - 1]
            } else {
                tb2[sel]
            };
            seq_remove_key(select_tab_spec(t1, next), tab_id)
        }
    }
}

/// Viewing the tree commutes with key lookup: the entry keys are the same
/// on both sides.
pub proof fn lemma_view_key_idx(s: Seq<(ItemId, DockItem)>, id: ItemId)
    ensures
        first_where(tree_view(s), key_is::<DockItemV>(id)) == first_where(
            s,
            key_is::<DockItem>(id),
        ),
    decreases s.len(),
{
    if s.len() > 0 {
        if s[0].0 != id {
            lemma_view_key_idx(s.drop_first(), id);
            assert(tree_view(s).drop_first() =~= tree_view(s.drop_first()));
        }
    }
}

/// Viewing the tree commutes with removing an entry by key.
pub proof fn lemma_view_remove_key(s: Seq<(ItemId, DockItem)>, id: ItemId)
    ensures
        tree_view(seq_remove_key(s, id)) == seq_remove_key(tree_view(s), id),
{
    lemma_view_key_idx(s, id);
    let i = first_where(s, key_is::<DockItem>(id));
    if i >= 0 {
        crate::idmap::lemma_first_where(s, key_is::<DockItem>(id));
        assert(tree_view(s.remove(i)) =~= tree_view(s).remove(i));
    }
}

} // verus!
