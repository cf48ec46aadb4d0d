//! Input events and the actions flowing between the dock, its child UI
//! elements and the hosting application.

use vstd::prelude::*;

use crate::cx::{cx_same_but_redraws, Cx, Redraw};
use crate::dock::{same_but_tree_and_tab_bars, tb_mark, Dock};
use crate::geom::Vec2;
use crate::idmap::{
    first_where, key_is, lemma_first_where_is, lemma_first_where_none, ItemId,
};
use crate::laws::{lemma_set_selected_wf, lemma_splitter_changed_wf};
use crate::tree::{
    id_idx, is_tabs, lemma_view_key_idx, splitter_changed_spec, tab_pressed_spec, tabs_of,
    tree_view, tree_wf, Axis, DockItem, DockItemV, SplitterAlign, TreeV,
};

verus! {

/// An input event handed down from the platform layer. The dock itself acts
/// on none of these directly; they are forwarded to child elements, whose
/// reported actions drive the dock.
#[derive(Clone, Copy, Debug, PartialEq, Eq, Structural)]
pub enum Event {
    Tick,
    Drag { abs: Vec2 },
    Drop { abs: Vec2 },
}

/// An opaque payload being dragged between panels; the host interprets it.
#[derive(Clone, Copy, Debug, PartialEq, Eq, Structural)]
pub struct DraggedItem {
    pub payload: u64,
}

/// What a splitter child element reports after handling an event.
#[derive(Clone, Copy, Debug, PartialEq, Eq, Structural)]
pub enum SplitterAction {
    Changed { axis: Axis, align: SplitterAlign },
}

/// What a tab-bar child element reports after handling an event.
#[derive(Clone, Copy, Debug, PartialEq, Eq, Structural)]
pub enum TabBarAction {
    ReceivedDraggedItem(DraggedItem),
    TabWasPressed(ItemId),
    TabCloseWasPressed(ItemId),
    TabReceivedDraggedItem(ItemId, DraggedItem),
}

/// Where a dragged item would land inside a content region. Re-exported
/// from the geometry module, where the position math lives.
pub use crate::geom::DragPosition;

/// What the dock reports to the hosting application.
#[derive(Clone, Copy, Debug, PartialEq, Eq, Structural)]
pub enum DockAction {
    SplitPanelChanged { panel_id: ItemId, axis: Axis, align: SplitterAlign },
    TabBarReceivedDraggedItem(ItemId, DraggedItem),
    TabWasPressed(ItemId),
    TabCloseWasPressed(ItemId),
    TabReceivedDraggedItem(ItemId, DraggedItem),
    ContentsReceivedDraggedItem(ItemId, DragPosition, DraggedItem),
}

impl Dock {
    /// Reduce a splitter child element's reported action: a changed
    /// alignment is written back into the splitter node, and the change is
    /// reported to the host in every case.
    pub fn handle_splitter_action(
        &mut self,
        cx: &mut Cx,
        panel_id: ItemId,
        action: SplitterAction,
    ) -> (r: Option<DockAction>)
        ensures
            ({
                let SplitterAction::Changed { axis, align } = action;
                &&& tree_view(final(self).dock_items@) == splitter_changed_spec(
                    tree_view(old(self).dock_items@),
                    panel_id,
                    axis,
                    align,
                )
                &&& r == Option::Some(DockAction::SplitPanelChanged { panel_id, axis, align })
            }),
            same_but_tree_and_tab_bars(*old(self), *final(self)),
            final(self).tab_bars@ == old(self).tab_bars@,
            *final(cx) == *old(cx),
            tree_wf(tree_view(old(self).dock_items@)) ==> tree_wf(
                tree_view(final(self).dock_items@),
            ),
    {
        let _ = cx;
        let SplitterAction::Changed { axis, align } = action;
        let ghost t0 = tree_view(self.dock_items@);
        let n = self.dock_items.entries.len();
        let mut i: usize = 0;
        while i < n
            invariant
                n == self.dock_items@.len(),
                i <= n,
                *self == *old(self),
                t0 == tree_view(self.dock_items@),
                action == (SplitterAction::Changed { axis, align }),
                forall|k: int| 0 <= k < i ==> (#[trigger] t0[k]).0 != panel_id,
            decreases n - i,
        {
            if self.dock_items.entries[i].0 == panel_id {
                proof {
                    lemma_first_where_is(t0, key_is::<DockItemV>(panel_id), i as int);
                }
                let hit: Option<(ItemId, ItemId)> = match &self.dock_items.entries[i].1 {
                    DockItem::Splitter { a, b, .. } => Some((*a, *b)),
                    _ => None,
                };
                if let Some((a, b)) = hit {
                    self.dock_items.entries[i] = (
                        panel_id,
                        DockItem::Splitter { axis, align, a, b },
                    );
                    proof {
                        assert(tree_view(self.dock_items@) =~= splitter_changed_spec(
                            t0,
                            panel_id,
                            axis,
                            align,
                        ));
                        if tree_wf(t0) {
                            lemma_splitter_changed_wf(
                                t0,
                                i as int,
                                DockItemV::Splitter { axis, align, a, b },
                            );
                        }
                    }
                } else {
                    proof {
                        assert(tree_view(self.dock_items@) =~= splitter_changed_spec(
                            t0,
                            panel_id,
                            axis,
                            align,
                        ));
                    }
                }
                return Some(DockAction::SplitPanelChanged { panel_id, axis, align });
            }
            i = i + 1;
        }
        proof {
            lemma_first_where_none(t0, key_is::<DockItemV>(panel_id));
            assert(tree_view(self.dock_items@) =~= splitter_changed_spec(
                t0,
                panel_id,
                axis,
                align,
            ));
        }
        Some(DockAction::SplitPanelChanged { panel_id, axis, align })
    }

    /// Reduce a tab bar's reported action. A pressed tab that the panel
    /// still lists becomes the selection, invalidates the content region
    /// and is reported; a pressed tab the model no longer has is ignored.
    /// Closing is only reported -- the host decides whether to call
    /// `close_tab`. Dragged-item reports pass through.
    pub fn handle_tab_bar_action(
        &mut self,
        cx: &mut Cx,
        panel_id: ItemId,
        action: TabBarAction,
    ) -> (r: Option<DockAction>)
        ensures
            cx_same_but_redraws(*old(cx), *final(cx)),
            same_but_tree_and_tab_bars(*old(self), *final(self)),
            tree_wf(tree_view(old(self).dock_items@)) ==> tree_wf(
                tree_view(final(self).dock_items@),
            ),
            ({
                let t0 = tree_view(old(self).dock_items@);
                match action {
                    TabBarAction::ReceivedDraggedItem(item) => r == Option::Some(
                        DockAction::TabBarReceivedDraggedItem(panel_id, item),
                    ) && final(self).dock_items@ == old(self).dock_items@ && final(self).tab_bars@
                        == old(self).tab_bars@ && final(cx).redraws@ == old(cx).redraws@,
                    TabBarAction::TabWasPressed(tab_id) => {
                        let k = first_where(t0, key_is::<DockItemV>(panel_id));
                        &&& tree_view(final(self).dock_items@) == tab_pressed_spec(
                            t0,
                            panel_id,
                            tab_id,
                        )
                        &&& if k >= 0 && is_tabs(t0[k].1) && tabs_of(t0[k].1).contains(tab_id) {
                            r == Option::Some(DockAction::TabWasPressed(tab_id)) && final(self).tab_bars@ == tb_mark(old(self).tab_bars@, panel_id) && final(cx).redraws@ == old(cx).redraws@.push(Redraw::Contents(panel_id))
                        } else {
                            (r matches Option::None) && final(self).tab_bars@ == old(self).tab_bars@ && final(cx).redraws@ == old(cx).redraws@
                        }
                    },
                    TabBarAction::TabCloseWasPressed(tab_id) => r == Option::Some(
                        DockAction::TabCloseWasPressed(tab_id),
                    ) && final(self).dock_items@ == old(self).dock_items@ && final(self).tab_bars@
                        == old(self).tab_bars@ && final(cx).redraws@ == old(cx).redraws@,
                    TabBarAction::TabReceivedDraggedItem(tab_id, item) => r == Option::Some(
                        DockAction::TabReceivedDraggedItem(tab_id, item),
                    ) && final(self).dock_items@ == old(self).dock_items@ && final(self).tab_bars@
                        == old(self).tab_bars@ && final(cx).redraws@ == old(cx).redraws@,
                }
            }),
    {
        match action {
            TabBarAction::ReceivedDraggedItem(item) => {
                Some(DockAction::TabBarReceivedDraggedItem(panel_id, item))
            },
            TabBarAction::TabWasPressed(tab_id) => {
                let ghost t0 = tree_view(self.dock_items@);
                proof {
                    lemma_view_key_idx(self.dock_items.entries@, panel_id);
                }
                let n = self.dock_items.entries.len();
                let mut i: usize = 0;
                while i < n
                    invariant
                        n == self.dock_items@.len(),
                        i <= n,
                        *self == *old(self),
                        *cx == *old(cx),
                        t0 == tree_view(self.dock_items@),
                        action == TabBarAction::TabWasPressed(tab_id),
                        forall|k: int| 0 <= k < i ==> (#[trigger] t0[k]).0 != panel_id,
                    decreases n - i,
                {
                    if self.dock_items.entries[i].0 == panel_id {
                        proof {
                            lemma_first_where_is(t0, key_is::<DockItemV>(panel_id), i as int);
                        }
                        let hit: Option<(usize, Vec<ItemId>)> = match &self
                            .dock_items
                            .entries[i].1 {
                            DockItem::Tabs { tabs, .. } => {
                                match crate::dock::vec_position(tabs, tab_id) {
                                    Some(p) => Some((p, crate::dock::copy_ids(tabs))),
                                    None => None,
                                }
                            },
                            _ => None,
                        };
                        if let Some((pos, tabs)) = hit {
                            self.dock_items.entries[i] = (
                                panel_id,
                                DockItem::Tabs { tabs, selected: pos },
                            );
                            proof {
                                assert(tree_view(self.dock_items@) =~= tab_pressed_spec(
                                    t0,
                                    panel_id,
                                    tab_id,
                                ));
                                if tree_wf(t0) {
                                    lemma_set_selected_wf(
                                        t0,
                                        i as int,
                                        id_idx(tabs_of(t0[i as int].1), tab_id),
                                    );
                                }
                            }
                            self.mark_tab_bar(panel_id);
                            cx.redraws.push(Redraw::Contents(panel_id));
                            return Some(DockAction::TabWasPressed(tab_id));
                        } else {
                            proof {
                                assert(tree_view(self.dock_items@) =~= tab_pressed_spec(
                                    t0,
                                    panel_id,
                                    tab_id,
                                ));
                            }
                            return None;
                        }
                    }
                    i = i + 1;
                }
                proof {
                    lemma_first_where_none(t0, key_is::<DockItemV>(panel_id));
                    assert(tree_view(self.dock_items@) =~= tab_pressed_spec(
                        t0,
                        panel_id,
                        tab_id,
                    ));
                }
                None
            },
            TabBarAction::TabCloseWasPressed(tab_id) => {
                Some(DockAction::TabCloseWasPressed(tab_id))
            },
            TabBarAction::TabReceivedDraggedItem(tab_id, item) => {
                Some(DockAction::TabReceivedDraggedItem(tab_id, item))
            },
        }
    }
}

/// The tree after one splitter action.
pub open spec fn splitter_action_step(t: TreeV, e: (ItemId, SplitterAction)) -> TreeV {
    match e.1 {
        SplitterAction::Changed { axis, align } => splitter_changed_spec(t, e.0, axis, align),
    }
}

/// The tree after a run of splitter actions, applied in order.
pub open spec fn splitter_actions_fold(t: TreeV, acts: Seq<(ItemId, SplitterAction)>) -> TreeV
    decreases acts.len(),
{
    if acts.len() == 0 {
        t
    } else {
        splitter_actions_fold(splitter_action_step(t, acts[0]), acts.drop_first())
    }
}

/// What a run of splitter actions reports: every change is passed on.
pub open spec fn splitter_actions_outs(acts: Seq<(ItemId, SplitterAction)>) -> Seq<DockAction>
    decreases acts.len(),
{
    if acts.len() == 0 {
        Seq::empty()
    } else {
        let out = match acts[0].1 {
            SplitterAction::Changed { axis, align } => DockAction::SplitPanelChanged {
                panel_id: acts[0].0,
                axis,
                align,
            },
        };
        seq![out] + splitter_actions_outs(acts.drop_first())
    }
}

/// The tree after one tab-bar action: only a press of a still-listed tab
/// changes anything.
pub open spec fn tab_action_step(t: TreeV, e: (ItemId, TabBarAction)) -> TreeV {
    match e.1 {
        TabBarAction::TabWasPressed(tab_id) => tab_pressed_spec(t, e.0, tab_id),
        _ => t,
    }
}

/// What one tab-bar action reports, given the tree it meets.
pub open spec fn tab_action_out(t: TreeV, e: (ItemId, TabBarAction)) -> Seq<DockAction> {
    match e.1 {
        TabBarAction::ReceivedDraggedItem(item) => seq![
            DockAction::TabBarReceivedDraggedItem(e.0, item),
        ],
        TabBarAction::TabWasPressed(tab_id) => {
            let k = first_where(t, key_is::<DockItemV>(e.0));
            if k >= 0 && is_tabs(t[k].1) && tabs_of(t[k].1).contains(tab_id) {
                seq![DockAction::TabWasPressed(tab_id)]
            } else {
                Seq::empty()
            }
        },
        TabBarAction::TabCloseWasPressed(tab_id) => seq![DockAction::TabCloseWasPressed(tab_id)],
        TabBarAction::TabReceivedDraggedItem(tab_id, item) => seq![
            DockAction::TabReceivedDraggedItem(tab_id, item),
        ],
    }
}

/// What one tab-bar action appends to the redraw log, given the tree it
/// meets: a press of a still-listed tab invalidates that panel's content
/// region; everything else requests nothing.
pub open spec fn tab_action_redraws(t: TreeV, e: (ItemId, TabBarAction)) -> Seq<Redraw> {
    match e.1 {
        TabBarAction::TabWasPressed(tab_id) => {
            let k = first_where(t, key_is::<DockItemV>(e.0));
            if k >= 0 && is_tabs(t[k].1) && tabs_of(t[k].1).contains(tab_id) {
                seq![Redraw::Contents(e.0)]
            } else {
                Seq::empty()
            }
        },
        _ => Seq::empty(),
    }
}

/// What a run of tab-bar actions appends to the redraw log.
pub open spec fn tab_actions_redraws(t: TreeV, acts: Seq<(ItemId, TabBarAction)>) -> Seq<Redraw>
    decreases acts.len(),
{
    if acts.len() == 0 {
        Seq::empty()
    } else {
        tab_action_redraws(t, acts[0]) + tab_actions_redraws(
            tab_action_step(t, acts[0]),
            acts.drop_first(),
        )
    }
}

/// The tree after a run of tab-bar actions, applied in order.
pub open spec fn tab_actions_fold(t: TreeV, acts: Seq<(ItemId, TabBarAction)>) -> TreeV
    decreases acts.len(),
{
    if acts.len() == 0 {
        t
    } else {
        tab_actions_fold(tab_action_step(t, acts[0]), acts.drop_first())
    }
}

/// What a run of tab-bar actions reports, each against the tree the
/// preceding actions left behind.
pub open spec fn tab_actions_outs(t: TreeV, acts: Seq<(ItemId, TabBarAction)>) -> Seq<DockAction>
    decreases acts.len(),
{
    if acts.len() == 0 {
        Seq::empty()
    } else {
        tab_action_out(t, acts[0]) + tab_actions_outs(tab_action_step(t, acts[0]), acts.drop_first())
    }
}

/// Folding one more splitter action steps the fold once.
proof fn lemma_sfold_snoc(t: TreeV, acts: Seq<(ItemId, SplitterAction)>, e: (ItemId, SplitterAction))
    ensures
        splitter_actions_fold(t, acts.push(e)) == splitter_action_step(
            splitter_actions_fold(t, acts),
            e,
        ),
        splitter_actions_outs(acts.push(e)) == splitter_actions_outs(acts).push(
            match e.1 {
                SplitterAction::Changed { axis, align } => DockAction::SplitPanelChanged {
                    panel_id: e.0,
                    axis,
                    align,
                },
            },
        ),
    decreases acts.len(),
{
    reveal_with_fuel(splitter_actions_fold, 3);
    reveal_with_fuel(splitter_actions_outs, 3);
    if acts.len() == 0 {
        assert(acts.push(e)[0] == e);
        assert(acts.push(e).drop_first() =~= acts);
        assert(acts.push(e).drop_first() == acts);
        assert(seq![e].drop_first() =~= Seq::<(ItemId, SplitterAction)>::empty());
        assert(seq![e].drop_first() == Seq::<(ItemId, SplitterAction)>::empty());
        assert(seq![e][0] == e);
        assert(splitter_actions_outs(acts.push(e)) =~= splitter_actions_outs(acts).push(
            match e.1 {
                SplitterAction::Changed { axis, align } => DockAction::SplitPanelChanged {
                    panel_id: e.0,
                    axis,
                    align,
                },
            },
        ));
    } else {
        assert(acts.push(e)[0] == acts[0]);
        assert(acts.push(e).drop_first() =~= acts.drop_first().push(e));
        assert(acts.push(e).drop_first() == acts.drop_first().push(e));
        lemma_sfold_snoc(splitter_action_step(t, acts[0]), acts.drop_first(), e);
        assert(splitter_actions_fold(t, acts) == splitter_actions_fold(
            splitter_action_step(t, acts[0]),
            acts.drop_first(),
        ));
        assert(splitter_actions_fold(t, acts.push(e)) == splitter_actions_fold(
            splitter_action_step(t, acts[0]),
            acts.drop_first().push(e),
        ));
        assert(splitter_actions_outs(acts.push(e)) =~= splitter_actions_outs(acts).push(
            match e.1 {
                SplitterAction::Changed { axis, align } => DockAction::SplitPanelChanged {
                    panel_id: e.0,
                    axis,
                    align,
                },
            },
        ));
    }
}

/// Folding one more tab-bar action steps the fold once.
proof fn lemma_tfold_snoc(t: TreeV, acts: Seq<(ItemId, TabBarAction)>, e: (ItemId, TabBarAction))
    ensures
        tab_actions_fold(t, acts.push(e)) == tab_action_step(tab_actions_fold(t, acts), e),
        tab_actions_outs(t, acts.push(e)) == tab_actions_outs(t, acts) + tab_action_out(
            tab_actions_fold(t, acts),
            e,
        ),
        tab_actions_redraws(t, acts.push(e)) == tab_actions_redraws(t, acts) + tab_action_redraws(
            tab_actions_fold(t, acts),
            e,
        ),
    decreases acts.len(),
{
    reveal_with_fuel(tab_actions_fold, 3);
    reveal_with_fuel(tab_actions_outs, 3);
    reveal_with_fuel(tab_actions_redraws, 3);
    if acts.len() == 0 {
        assert(acts.push(e)[0] == e);
        assert(acts.push(e).drop_first() =~= acts);
        assert(acts.push(e).drop_first() == acts);
        assert(tab_actions_outs(t, acts.push(e)) =~= tab_actions_outs(t, acts) + tab_action_out(
            tab_actions_fold(t, acts),
            e,
        ));
        assert(tab_actions_redraws(t, acts.push(e)) =~= tab_actions_redraws(t, acts)
            + tab_action_redraws(tab_actions_fold(t, acts), e));
    } else {
        assert(acts.push(e)[0] == acts[0]);
        assert(acts.push(e).drop_first() =~= acts.drop_first().push(e));
        assert(acts.push(e).drop_first() == acts.drop_first().push(e));
        lemma_tfold_snoc(tab_action_step(t, acts[0]), acts.drop_first(), e);
        assert(tab_actions_fold(t, acts) == tab_actions_fold(
            tab_action_step(t, acts[0]),
            acts.drop_first(),
        ));
        assert(tab_actions_fold(t, acts.push(e)) == tab_actions_fold(
            tab_action_step(t, acts[0]),
            acts.drop_first().push(e),
        ));
        assert(tab_actions_outs(t, acts.push(e)) =~= tab_actions_outs(t, acts) + tab_action_out(
            tab_actions_fold(t, acts),
            e,
        ));
        assert(tab_actions_redraws(t, acts.push(e)) =~= tab_actions_redraws(t, acts)
            + tab_action_redraws(tab_actions_fold(t, acts), e));
    }
}

impl Dock {
    /// Dispatch one round of input handling: the actions the splitter and
    /// tab-bar child elements reported for this event, in registry order,
    /// are reduced one by one into tree updates, and everything of note is
    /// collected for the host. The host performs the per-widget event
    /// forwarding itself and hands the reported actions in.
    pub fn handle_widget_event_with(
        &mut self,
        cx: &mut Cx,
        splitter_actions: &Vec<(ItemId, SplitterAction)>,
        tab_bar_actions: &Vec<(ItemId, TabBarAction)>,
    ) -> (out: Vec<DockAction>)
        ensures
            tree_view(final(self).dock_items@) == tab_actions_fold(
                splitter_actions_fold(tree_view(old(self).dock_items@), splitter_actions@),
                tab_bar_actions@,
            ),
            out@ == splitter_actions_outs(splitter_actions@) + tab_actions_outs(
                splitter_actions_fold(tree_view(old(self).dock_items@), splitter_actions@),
                tab_bar_actions@,
            ),
            cx_same_but_redraws(*old(cx), *final(cx)),
            final(cx).redraws@ == old(cx).redraws@ + tab_actions_redraws(
                splitter_actions_fold(tree_view(old(self).dock_items@), splitter_actions@),
                tab_bar_actions@,
            ),
            tree_wf(tree_view(old(self).dock_items@)) ==> tree_wf(
                tree_view(final(self).dock_items@),
            ),
    {
        let ghost t0 = tree_view(self.dock_items@);
        let mut out: Vec<DockAction> = Vec::new();
        let n = splitter_actions.len();
        let mut i: usize = 0;
        while i < n
            invariant
                n == splitter_actions@.len(),
                i <= n,
                t0 == tree_view(old(self).dock_items@),
                tree_view(self.dock_items@) == splitter_actions_fold(
                    t0,
                    splitter_actions@.subrange(0, i as int),
                ),
                out@ == splitter_actions_outs(splitter_actions@.subrange(0, i as int)),
                tree_wf(t0) ==> tree_wf(tree_view(self.dock_items@)),
                cx_same_but_redraws(*old(cx), *cx),
                cx.redraws@ == old(cx).redraws@,
            decreases n - i,
        {
            let (panel_id, action) = splitter_actions[i];
            let ghost tcur = tree_view(self.dock_items@);
            let r = self.handle_splitter_action(cx, panel_id, action);
            if let Some(a) = r {
                out.push(a);
            }
            proof {
                assert(splitter_actions@.subrange(0, i + 1 as int) =~= splitter_actions@.subrange(
                    0,
                    i as int,
                ).push(splitter_actions@[i as int]));
                lemma_sfold_snoc(t0, splitter_actions@.subrange(0, i as int), splitter_actions@[i as int]);
                assert(out@ =~= splitter_actions_outs(splitter_actions@.subrange(0, i + 1 as int)));
            }
            i = i + 1;
        }
        proof {
            assert(splitter_actions@.subrange(0, n as int) =~= splitter_actions@);
        }
        let ghost t1 = tree_view(self.dock_items@);
        proof {
            assert(cx.redraws@ =~= old(cx).redraws@ + tab_actions_redraws(
                t1,
                tab_bar_actions@.subrange(0, 0),
            ));
        }
        let m = tab_bar_actions.len();
        let mut j: usize = 0;
        while j < m
            invariant
                m == tab_bar_actions@.len(),
                t1 == splitter_actions_fold(tree_view(old(self).dock_items@), splitter_actions@),
                j <= m,
                tree_view(self.dock_items@) == tab_actions_fold(
                    t1,
                    tab_bar_actions@.subrange(0, j as int),
                ),
                out@ == splitter_actions_outs(splitter_actions@) + tab_actions_outs(
                    t1,
                    tab_bar_actions@.subrange(0, j as int),
                ),
                cx.redraws@ == old(cx).redraws@ + tab_actions_redraws(
                    t1,
                    tab_bar_actions@.subrange(0, j as int),
                ),
                tree_wf(tree_view(old(self).dock_items@)) ==> tree_wf(
                    tree_view(self.dock_items@),
                ),
                cx_same_but_redraws(*old(cx), *cx),
            decreases m - j,
        {
            let (panel_id, action) = tab_bar_actions[j];
            let ghost tcur = tree_view(self.dock_items@);
            let r = self.handle_tab_bar_action(cx, panel_id, action);
            if let Some(a) = r {
                out.push(a);
            }
            proof {
                assert(tab_bar_actions@.subrange(0, j + 1 as int) =~= tab_bar_actions@.subrange(
                    0,
                    j as int,
                ).push(tab_bar_actions@[j as int]));
                lemma_tfold_snoc(t1, tab_bar_actions@.subrange(0, j as int), tab_bar_actions@[j as int]);
                assert(out@ =~= splitter_actions_outs(splitter_actions@) + tab_actions_outs(
                    t1,
                    tab_bar_actions@.subrange(0, j + 1 as int),
                ));
                assert(cx.redraws@ =~= old(cx).redraws@ + tab_actions_redraws(
                    t1,
                    tab_bar_actions@.subrange(0, j + 1 as int),
                ));
            }
            j = j + 1;
        }
        proof {
            assert(tab_bar_actions@.subrange(0, m as int) =~= tab_bar_actions@);
        }
        out
    }
}

/// A handle to a dock widget that may be empty; operations on an empty
/// handle do nothing.
pub struct DockRef {
    pub dock: Option<Dock>,
}

impl DockRef {
    /// Close a tab on the referenced dock, if the handle holds one: the
    /// dock then changes exactly as `Dock::close_tab` says, redraw
    /// requests included.
    pub fn close_tab(&mut self, cx: &mut Cx, tab_id: ItemId)
        requires
            match old(self).dock {
                Option::Some(d) => crate::tree::sel_ok(tree_view(d.dock_items@)),
                Option::None => true,
            },
        ensures
            match old(self).dock {
                Option::Some(d) => final(self).dock matches Option::Some(d2)
                    && crate::dock::close_tab_effects(d, d2, *old(cx), *final(cx), tab_id),
                Option::None => final(self).dock matches Option::None && *final(cx) == *old(cx),
            },
    {
        match &mut self.dock {
            Option::Some(dock) => dock.close_tab(cx, tab_id),
            Option::None => {},
        }
    }

    /// The identifier carried by the first close-press the dock reported in
    /// `actions`, if any.
    pub fn clicked_tab_close(&self, actions: &Vec<DockAction>) -> (r: Option<ItemId>)
        ensures
            ({
                let j = first_where(
                    actions@,
                    |a: DockAction| a matches DockAction::TabCloseWasPressed(_),
                );
                match r {
                    Option::Some(x) => j >= 0 && actions@[j] == DockAction::TabCloseWasPressed(x),
                    Option::None => j < 0,
                }
            }),
    {
        let n = actions.len();
        let mut i: usize = 0;
        while i < n
            invariant
                n == actions@.len(),
                i <= n,
                forall|k: int|
                    0 <= k < i ==> !((#[trigger] actions@[k]) matches
                    DockAction::TabCloseWasPressed(_)),
            decreases n - i,
        {
            if let DockAction::TabCloseWasPressed(tab_id) = actions[i] {
                proof {
                    lemma_first_where_is(
                        actions@,
                        |a: DockAction| a matches DockAction::TabCloseWasPressed(_),
                        i as int,
                    );
                }
                return Some(tab_id);
            }
            i = i + 1;
        }
        proof {
            lemma_first_where_none(
                actions@,
                |a: DockAction| a matches DockAction::TabCloseWasPressed(_),
            );
        }
        None
    }
}

/// A collection of dock handles, addressed together.
pub struct DockSet {
    pub docks: Vec<DockRef>,
}

impl DockSet {
    pub fn new() -> (r: DockSet)
        ensures
            r.docks@.len() == 0,
    {
        DockSet { docks: Vec::new() }
    }
}

} // verus!
