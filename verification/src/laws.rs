//! The tree invariant is kept by every structural mutation. Each proof
//! function below states one such law over the transition functions of
//! [`crate::tree`]; the mutation methods of [`crate::dock::Dock`] carry the
//! matching clause in their contracts.

use vstd::prelude::*;

use crate::idmap::{
    first_where, key_is, lemma_first_where, lemma_first_where_found, lemma_first_where_is,
    seq_remove_key, ItemId,
};
use crate::tree::{
    child_a, child_b, close_tab_spec, id_idx, id_is, is_splitter, is_tab, is_tab_at, is_tabs,
    is_tabs_at, keys_unique, lookup, no_refs_to, refs_of, refs_ok, refs_unique, replace_child,
    sel_of, sel_ok, sel_ok_except, select_tab_spec, set_parent_split_spec, splitter_has_child,
    splitter_with, tabs_has, tabs_of, tabs_typed, tabs_with, tree_wf, unsplit_sibling,
    unsplit_tabs_spec, DockItemV, TreeV,
};

verus! {

/// Nothing outside the entry keyed `id` refers to `id`.
pub open spec fn no_outside_refs_to(t: TreeV, id: ItemId) -> bool {
    forall|i: int, p: int|
        0 <= i < t.len() && 0 <= p < refs_of((#[trigger] t[i]).1).len() && t[i].0 != id
            ==> #[trigger] refs_of(t[i].1)[p] != id
}

/// The source index, before the removal at `k`, of entry `i` of `t.remove(k)`.
pub open spec fn unremove(k: int, i: int) -> int {
    if i < k {
        i
    } else {
        i + 1
    }
}

/// Removing the entry keyed `id` keeps each part of the tree invariant, as
/// long as nothing refers to the removed entry.
pub proof fn lemma_remove_key_wf(t: TreeV, id: ItemId, x: ItemId)
    ensures
        keys_unique(t) ==> keys_unique(seq_remove_key(t, id)),
        sel_ok(t) ==> sel_ok(seq_remove_key(t, id)),
        sel_ok_except(t, x) ==> sel_ok_except(seq_remove_key(t, id), x),
        refs_unique(t) ==> refs_unique(seq_remove_key(t, id)),
        (keys_unique(t) && refs_ok(t) && no_outside_refs_to(t, id)) ==> refs_ok(
            seq_remove_key(t, id),
        ),
        (keys_unique(t) && tabs_typed(t) && no_outside_refs_to(t, id)) ==> tabs_typed(
            seq_remove_key(t, id),
        ),
{
    let k = first_where(t, key_is::<DockItemV>(id));
    lemma_first_where(t, key_is::<DockItemV>(id));
    if k >= 0 {
        let u = t.remove(k);
        assert(seq_remove_key(t, id) == u);
        assert(u.len() == t.len() - 1);
        assert forall|i: int| 0 <= i < u.len() implies #[trigger] u[i] == t[unremove(k, i)] by {}
        if keys_unique(t) {
            assert forall|i: int, j: int| 0 <= i < j < u.len() implies (#[trigger] u[i]).0 != (
            #[trigger] u[j]).0 by {
                assert(u[i] == t[unremove(k, i)]);
                assert(u[j] == t[unremove(k, j)]);
            }
        }
        if sel_ok(t) {
            assert forall|i: int| 0 <= i < u.len() && is_tabs((#[trigger] u[i]).1) implies 0
                < tabs_of(u[i].1).len() && 0 <= sel_of(u[i].1) < tabs_of(u[i].1).len() by {
                assert(u[i] == t[unremove(k, i)]);
            }
        }
        if sel_ok_except(t, x) {
            assert forall|i: int|
                0 <= i < u.len() && (#[trigger] u[i]).0 != x && is_tabs(u[i].1) implies 0 < tabs_of(
                u[i].1,
            ).len() && 0 <= sel_of(u[i].1) < tabs_of(u[i].1).len() by {
                assert(u[i] == t[unremove(k, i)]);
            }
        }
        if refs_unique(t) {
            assert forall|i: int, p: int, j: int, q: int|
                0 <= i < u.len() && 0 <= p < refs_of(u[i].1).len() && 0 <= j < u.len() && 0 <= q
                    < refs_of(u[j].1).len() && (i != j || p != q) implies #[trigger] refs_of(
                u[i].1,
            )[p] != #[trigger] refs_of(u[j].1)[q] by {
                assert(u[i] == t[unremove(k, i)]);
                assert(u[j] == t[unremove(k, j)]);
                assert(refs_of(t[unremove(k, i)].1)[p] != refs_of(t[unremove(k, j)].1)[q]);
            }
        }
        if keys_unique(t) && refs_ok(t) && no_outside_refs_to(t, id) {
            assert forall|i: int, p: int|
                0 <= i < u.len() && 0 <= p < refs_of(u[i].1).len() implies first_where(
                u,
                key_is::<DockItemV>(#[trigger] refs_of((#[trigger] u[i]).1)[p]),
            ) >= 0 by {
                assert(u[i] == t[unremove(k, i)]);
                let r = refs_of(u[i].1)[p];
                assert(refs_of(t[unremove(k, i)].1)[p] == r);
                assert(t[k].0 == id && unremove(k, i) != k);
                assert(t[unremove(k, i)].0 != id);
                assert(r != id);
                let w = first_where(t, key_is::<DockItemV>(r));
                lemma_first_where(t, key_is::<DockItemV>(r));
                assert(w >= 0);
                assert(t[w].0 == r);
                assert(t[k].0 == id);
                assert(w != k);
                let w2 = if w < k {
                    w
                } else {
                    w - 1
                };
                assert(u[w2] == t[w]);
                lemma_first_where_found(u, key_is::<DockItemV>(r), w2);
            }
        }
        if keys_unique(t) && tabs_typed(t) && no_outside_refs_to(t, id) {
            assert forall|i: int, p: int|
                0 <= i < u.len() && is_tabs((#[trigger] u[i]).1) && 0 <= p < tabs_of(
                    u[i].1,
                ).len() implies is_tab_at(u, #[trigger] tabs_of(u[i].1)[p]) by {
                assert(u[i] == t[unremove(k, i)]);
                let r = tabs_of(u[i].1)[p];
                assert(tabs_of(t[unremove(k, i)].1)[p] == r);
                assert(is_tab_at(t, r));
                assert(refs_of(t[unremove(k, i)].1)[p] == r);
                assert(t[k].0 == id && unremove(k, i) != k);
                assert(t[unremove(k, i)].0 != id);
                assert(r != id);
                let w = first_where(t, key_is::<DockItemV>(r));
                lemma_first_where(t, key_is::<DockItemV>(r));
                assert(t[w].0 == r);
                assert(t[k].0 == id);
                assert(w != k);
                let w2 = if w < k {
                    w
                } else {
                    w - 1
                };
                assert(u[w2] == t[w]);
                lemma_first_where_found(u, key_is::<DockItemV>(r), w2);
                let w3 = first_where(u, key_is::<DockItemV>(r));
                lemma_first_where(u, key_is::<DockItemV>(r));
                assert(u[w3].0 == r);
                assert(u[w3] == t[unremove(k, w3)]);
                assert(t[unremove(k, w3)].0 == r);
                if unremove(k, w3) != w {
                    assert(false);
                }
                assert(is_tab(u[w3].1));
            }
        }
    }
}

/// Two trees with the same keys in the same order agree on key lookup.
pub proof fn lemma_first_where_same_keys(a: TreeV, b: TreeV, id: ItemId)
    requires
        a.len() == b.len(),
        forall|k: int| 0 <= k < a.len() ==> (#[trigger] a[k]).0 == b[k].0,
    ensures
        first_where(a, key_is::<DockItemV>(id)) == first_where(b, key_is::<DockItemV>(id)),
    decreases a.len(),
{
    if a.len() > 0 {
        assert(a[0].0 == b[0].0);
        if a[0].0 != id {
            assert(a.drop_first().len() == b.drop_first().len());
            assert forall|k: int| 0 <= k < a.drop_first().len() implies (#[trigger] a.drop_first()[k]).0
                == b.drop_first()[k].0 by {
                assert(a.drop_first()[k] == a[k + 1]);
                assert(b.drop_first()[k] == b[k + 1]);
            }
            lemma_first_where_same_keys(a.drop_first(), b.drop_first(), id);
        }
    }
}

/// Selecting a tab keeps the tree invariant.
pub proof fn lemma_select_tab_wf(t: TreeV, x: ItemId)
    requires
        tree_wf(t),
    ensures
        tree_wf(select_tab_spec(t, x)),
{
    let j = first_where(t, tabs_with(x));
    lemma_first_where(t, tabs_with(x));
    if j >= 0 {
        assert(tabs_has(t[j].1, x));
        let tb = tabs_of(t[j].1);
        let u = select_tab_spec(t, x);
        assert(u == t.update(j, (t[j].0, DockItemV::Tabs { tabs: tb, selected: id_idx(tb, x) })));
        let wi = choose|wi: int| 0 <= wi < tb.len() && tb[wi] == x;
        assert(id_is(x)(tb[wi]));
        lemma_first_where_found(tb, id_is(x), wi);
        lemma_first_where(tb, id_is(x));
        assert(0 <= id_idx(tb, x) < tb.len());
        assert(u.len() == t.len());
        assert(forall|k: int| 0 <= k < t.len() ==> (#[trigger] u[k]).0 == t[k].0);
        assert(refs_of(u[j].1) == refs_of(t[j].1));
        assert(forall|k: int| 0 <= k < t.len() ==> refs_of((#[trigger] u[k]).1) == refs_of(t[k].1));
        assert(keys_unique(u));
        assert forall|i: int| 0 <= i < u.len() && is_tabs((#[trigger] u[i]).1) implies 0 < tabs_of(
            u[i].1,
        ).len() && 0 <= sel_of(u[i].1) < tabs_of(u[i].1).len() by {
            if i != j {
                assert(u[i] == t[i]);
            }
        }
        assert forall|i: int, p: int|
            0 <= i < u.len() && 0 <= p < refs_of(u[i].1).len() implies first_where(
            u,
            key_is::<DockItemV>(#[trigger] refs_of((#[trigger] u[i]).1)[p]),
        ) >= 0 by {
            let r = refs_of(u[i].1)[p];
            assert(refs_of(t[i].1)[p] == r);
            lemma_first_where_same_keys(u, t, r);
        }
        assert forall|i: int, p: int, a: int, q: int|
            0 <= i < u.len() && 0 <= p < refs_of(u[i].1).len() && 0 <= a < u.len() && 0 <= q
                < refs_of(u[a].1).len() && (i != a || p != q) implies #[trigger] refs_of(
            u[i].1,
        )[p] != #[trigger] refs_of(u[a].1)[q] by {
            assert(refs_of(u[i].1) == refs_of(t[i].1));
            assert(refs_of(u[a].1) == refs_of(t[a].1));
        }
        assert forall|i: int, p: int|
            0 <= i < u.len() && is_tabs((#[trigger] u[i]).1) && 0 <= p < tabs_of(
                u[i].1,
            ).len() implies is_tab_at(u, #[trigger] tabs_of(u[i].1)[p]) by {
            let r = tabs_of(u[i].1)[p];
            assert(tabs_of(u[i].1) == refs_of(u[i].1));
            assert(refs_of(t[i].1)[p] == r);
            assert(tabs_of(t[i].1)[p] == r);
            assert(is_tab_at(t, r));
            lemma_first_where_same_keys(u, t, r);
            let w = first_where(t, key_is::<DockItemV>(r));
            lemma_first_where(t, key_is::<DockItemV>(r));
            assert(0 <= w < t.len());
            assert(is_tab(t[w].1));
            if w == j {
                assert(is_tabs(t[j].1));
                assert(false);
            }
            assert(u[w] == t[w]);
        }
    }
}

/// A key whose entry is not a `Tab` leaf is listed in no tabs node.
proof fn lemma_no_refs_from_tabs_typed(t: TreeV, id: ItemId, k: int)
    requires
        keys_unique(t),
        tabs_typed(t),
        0 <= k < t.len(),
        t[k].0 == id,
        !is_tab(t[k].1),
    ensures
        forall|a: int, p: int|
            0 <= a < t.len() && is_tabs((#[trigger] t[a]).1) && 0 <= p < tabs_of(t[a].1).len()
                ==> #[trigger] tabs_of(t[a].1)[p] != id,
{
    lemma_first_where_found(t, key_is::<DockItemV>(id), k);
    let w = first_where(t, key_is::<DockItemV>(id));
    lemma_first_where(t, key_is::<DockItemV>(id));
    if w != k {
        assert(t[w].0 == t[k].0);
        assert(false);
    }
    assert forall|a: int, p: int|
        0 <= a < t.len() && is_tabs((#[trigger] t[a]).1) && 0 <= p < tabs_of(
            t[a].1,
        ).len() implies #[trigger] tabs_of(t[a].1)[p] != id by {
        if tabs_of(t[a].1)[p] == id {
            assert(is_tab_at(t, id));
            assert(is_tab(t[w].1));
        }
    }
}

/// The reference slot of a splitter that holds `id`: the `a` slot first.
pub open spec fn slot_of(item: DockItemV, id: ItemId) -> int {
    if child_a(item) == id {
        0
    } else {
        1
    }
}

/// Re-linking the sibling into the splitter above `sp` keeps the key order,
/// rewrites exactly one reference slot, and leaves the invariant parts
/// needed further down intact.
#[verifier::spinoff_prover]
proof fn lemma_unsplit_t1(t: TreeV, x: ItemId)
    requires
        keys_unique(t),
        refs_ok(t),
        refs_unique(t),
        tabs_typed(t),
        is_tabs_at(t, x),
        first_where(t, splitter_with(x)) >= 0,
    ensures
        ({
            let i = first_where(t, splitter_with(x));
            let sp = t[i].0;
            let sib = unsplit_sibling(t, x);
            let g = first_where(t, splitter_with(sp));
            let t1 = set_parent_split_spec(t, sp, sib);
            &&& t1.len() == t.len()
            &&& forall|k: int| 0 <= k < t.len() ==> (#[trigger] t1[k]).0 == t[k].0
            &&& forall|a: int|
                0 <= a < t.len() && a != g ==> refs_of((#[trigger] t1[a]).1) == refs_of(t[a].1)
            &&& g >= 0 ==> refs_of(t1[g].1) == refs_of(t[g].1).update(slot_of(t[g].1, sp), sib)
                && refs_of(t[g].1)[slot_of(t[g].1, sp)] == sp && is_splitter(t[g].1)
            &&& keys_unique(t1)
            &&& refs_ok(t1)
            &&& tabs_typed(t1)
            &&& no_outside_refs_to(t1, sp)
            &&& sel_ok_except(t, x) ==> sel_ok_except(t1, x)
            &&& sp != x
            &&& sib != x
            &&& first_where(t, key_is::<DockItemV>(x)) != i
            &&& first_where(t, key_is::<DockItemV>(sp)) == i
            &&& is_splitter(t[i].1)
            &&& refs_of(t[i].1) == seq![child_a(t[i].1), child_b(t[i].1)]
            &&& refs_of(t[i].1)[slot_of(t[i].1, x)] == x
            &&& refs_of(t[i].1)[1 - slot_of(t[i].1, x)] == sib
        }),
{
    let i = first_where(t, splitter_with(x));
    lemma_first_where(t, splitter_with(x));
    let kx = first_where(t, key_is::<DockItemV>(x));
    lemma_first_where(t, key_is::<DockItemV>(x));
    let sp = t[i].0;
    let sib = unsplit_sibling(t, x);
    assert(splitter_has_child(t[i].1, x));
    assert(refs_of(t[i].1) == seq![child_a(t[i].1), child_b(t[i].1)]);
    let sx = slot_of(t[i].1, x);
    let ss = 1 - sx;
    assert(refs_of(t[i].1)[sx] == x);
    assert(refs_of(t[i].1)[ss] == sib);
    if sp == x {
        lemma_first_where_found(t, key_is::<DockItemV>(x), i);
        if kx != i {
            assert(t[kx].0 == t[i].0);
        }
        assert(is_tabs(t[i].1) && is_splitter(t[i].1));
        assert(false);
    }
    assert(kx != i);
    if sib == x {
        assert(refs_of(t[i].1)[0] == refs_of(t[i].1)[1]);
        assert(false);
    }
    lemma_first_where_found(t, key_is::<DockItemV>(sp), i);
    let ksp = first_where(t, key_is::<DockItemV>(sp));
    lemma_first_where(t, key_is::<DockItemV>(sp));
    if ksp != i {
        assert(t[ksp].0 == t[i].0);
        assert(false);
    }
    lemma_no_refs_from_tabs_typed(t, sp, i);
    let g = first_where(t, splitter_with(sp));
    lemma_first_where(t, splitter_with(sp));
    let t1 = set_parent_split_spec(t, sp, sib);
    let gs = slot_of(t[g].1, sp);
    if g >= 0 {
        assert(splitter_has_child(t[g].1, sp));
        assert(refs_of(t[g].1) == seq![child_a(t[g].1), child_b(t[g].1)]);
        assert(refs_of(t[g].1)[gs] == sp);
        assert(t1 == t.update(g, (t[g].0, replace_child(t[g].1, sp, sib))));
        assert(refs_of(t1[g].1) =~= refs_of(t[g].1).update(gs, sib));
    } else {
        assert(t1 == t);
    }
    assert(t1.len() == t.len());
    assert(forall|k: int| 0 <= k < t.len() ==> (#[trigger] t1[k]).0 == t[k].0);
    assert forall|a: int|
        0 <= a < t.len() && a != g implies refs_of((#[trigger] t1[a]).1) == refs_of(t[a].1) by {}
    assert(keys_unique(t1));
    // no reference to sp outside sp's own entry
    assert forall|a: int, p: int|
        0 <= a < t1.len() && 0 <= p < refs_of((#[trigger] t1[a]).1).len() && t1[a].0
            != sp implies #[trigger] refs_of(t1[a].1)[p] != sp by {
        if refs_of(t1[a].1)[p] == sp {
            if g >= 0 && a == g && p == gs {
                assert(refs_of(t1[a].1)[p] == sib);
                if sib == sp {
                    assert(refs_of(t[i].1)[ss] == sp);
                    if g != i {
                        assert(refs_of(t[g].1)[gs] == refs_of(t[i].1)[ss]);
                        assert(false);
                    }
                    assert(t1[a].0 == sp);
                }
            } else {
                assert(refs_of(t1[a].1)[p] == refs_of(t[a].1)[p]);
                if g < 0 {
                    if is_splitter(t[a].1) {
                        assert(splitter_with(sp)(t[a]));
                    } else if is_tabs(t[a].1) {
                        assert(tabs_of(t[a].1) == refs_of(t[a].1));
                        assert(tabs_of(t[a].1)[p] == sp);
                    }
                    assert(false);
                } else {
                    assert((a != g || p != gs));
                    assert(refs_of(t[g].1)[gs] == sp);
                    assert(false);
                }
            }
        }
    }
    // resolved references stay resolved
    assert forall|a: int, p: int|
        0 <= a < t1.len() && 0 <= p < refs_of(t1[a].1).len() implies first_where(
        t1,
        key_is::<DockItemV>(#[trigger] refs_of((#[trigger] t1[a]).1)[p]),
    ) >= 0 by {
        let r = refs_of(t1[a].1)[p];
        lemma_first_where_same_keys(t1, t, r);
        if g >= 0 && a == g && p == gs {
            assert(r == sib);
            assert(refs_of(t[i].1)[ss] == sib);
        } else {
            assert(refs_of(t1[a].1)[p] == refs_of(t[a].1)[p]);
        }
    }
    // tabs nodes are untouched, and their members still name tab leaves
    assert forall|a: int, p: int|
        0 <= a < t1.len() && is_tabs((#[trigger] t1[a]).1) && 0 <= p < tabs_of(
            t1[a].1,
        ).len() implies is_tab_at(t1, #[trigger] tabs_of(t1[a].1)[p]) by {
        if g >= 0 && a == g {
            assert(is_splitter(t[g].1));
            assert(!is_tabs(t1[a].1));
        } else {
            assert(t1[a] == t[a]);
            let r = tabs_of(t[a].1)[p];
            assert(is_tab_at(t, r));
            let w = first_where(t, key_is::<DockItemV>(r));
            lemma_first_where(t, key_is::<DockItemV>(r));
            lemma_first_where_same_keys(t1, t, r);
            if g >= 0 && w == g {
                assert(is_splitter(t[g].1) && is_tab(t[g].1));
                assert(false);
            }
            assert(t1[w] == t[w]);
        }
    }
    if sel_ok_except(t, x) {
        assert forall|a: int|
            0 <= a < t1.len() && (#[trigger] t1[a]).0 != x && is_tabs(t1[a].1) implies 0 < tabs_of(
            t1[a].1,
        ).len() && 0 <= sel_of(t1[a].1) < tabs_of(t1[a].1).len() by {
            if g >= 0 && a == g {
                assert(!is_tabs(t1[a].1));
            } else {
                assert(t1[a] == t[a]);
            }
        }
    }
}

/// After the re-link, removing the splitter's entry leaves references
/// unique and leaves nothing referring to `x`.
#[verifier::spinoff_prover]
proof fn lemma_unsplit_rm1(t: TreeV, x: ItemId)
    requires
        keys_unique(t),
        refs_ok(t),
        refs_unique(t),
        tabs_typed(t),
        is_tabs_at(t, x),
        first_where(t, splitter_with(x)) >= 0,
    ensures
        ({
            let i = first_where(t, splitter_with(x));
            let sp = t[i].0;
            let sib = unsplit_sibling(t, x);
            let rm1 = seq_remove_key(set_parent_split_spec(t, sp, sib), sp);
            &&& no_refs_to(rm1, x)
            &&& refs_unique(rm1)
        }),
{
    let i = first_where(t, splitter_with(x));
    lemma_first_where(t, splitter_with(x));
    let sp = t[i].0;
    let sib = unsplit_sibling(t, x);
    let g = first_where(t, splitter_with(sp));
    let t1 = set_parent_split_spec(t, sp, sib);
    let gs = slot_of(t[g].1, sp);
    let sx = slot_of(t[i].1, x);
    let ss = 1 - sx;
    lemma_unsplit_t1(t, x);
    lemma_first_where_same_keys(t1, t, sp);
    let rm1 = seq_remove_key(t1, sp);
    assert(rm1 =~= t1.remove(i));
    assert(rm1.len() == t1.len() - 1);
    assert forall|a: int| 0 <= a < rm1.len() implies #[trigger] rm1[a] == t1[unremove(i, a)] by {}
    assert forall|a: int, p: int|
        0 <= a < rm1.len() && 0 <= p < refs_of((#[trigger] rm1[a]).1).len() implies #[trigger] refs_of(
        rm1[a].1,
    )[p] != x by {
        let a1 = unremove(i, a);
        assert(rm1[a] == t1[a1]);
        assert(a1 != i);
        if refs_of(rm1[a].1)[p] == x {
            if g >= 0 && a1 == g && p == gs {
                assert(refs_of(t1[a1].1)[p] == refs_of(t[g].1).update(gs, sib)[gs]);
                assert(refs_of(t1[a1].1)[p] == sib);
            } else {
                assert(refs_of(t1[a1].1) == refs_of(t[a1].1) || (g >= 0 && a1 == g));
                if g >= 0 && a1 == g {
                    assert(refs_of(t1[a1].1)[p] == refs_of(t[a1].1)[p]);
                } else {
                    assert(refs_of(t1[a1].1)[p] == refs_of(t[a1].1)[p]);
                }
                assert(refs_of(t[a1].1)[p] == x);
                assert(refs_of(t[i].1)[sx] == x);
                assert(false);
            }
        }
    }
    assert(no_refs_to(rm1, x));
    assert forall|a: int, p: int, b: int, q: int|
        0 <= a < rm1.len() && 0 <= p < refs_of(rm1[a].1).len() && 0 <= b < rm1.len() && 0 <= q
            < refs_of(rm1[b].1).len() && (a != b || p != q) implies #[trigger] refs_of(
        rm1[a].1,
    )[p] != #[trigger] refs_of(rm1[b].1)[q] by {
        let a1 = unremove(i, a);
        let b1 = unremove(i, b);
        assert(rm1[a] == t1[a1] && rm1[b] == t1[b1]);
        assert(a1 != i && b1 != i);
        assert((a1 != b1 || p != q));
        if refs_of(rm1[a].1)[p] == refs_of(rm1[b].1)[q] {
            let at_g_a = g >= 0 && a1 == g && p == gs;
            let at_g_b = g >= 0 && b1 == g && q == gs;
            if at_g_a && at_g_b {
                assert(a1 == b1 && p == q);
                assert(false);
            } else if at_g_a {
                assert(refs_of(t1[a1].1)[p] == refs_of(t[g].1).update(gs, sib)[gs]);
                assert(refs_of(t1[b1].1)[q] == refs_of(t[b1].1)[q]);
                assert(refs_of(t[b1].1)[q] == sib);
                assert(refs_of(t[i].1)[ss] == sib);
                assert(false);
            } else if at_g_b {
                assert(refs_of(t1[b1].1)[q] == refs_of(t[g].1).update(gs, sib)[gs]);
                assert(refs_of(t1[a1].1)[p] == refs_of(t[a1].1)[p]);
                assert(refs_of(t[a1].1)[p] == sib);
                assert(refs_of(t[i].1)[ss] == sib);
                assert(false);
            } else {
                assert(refs_of(t1[a1].1)[p] == refs_of(t[a1].1)[p]);
                assert(refs_of(t1[b1].1)[q] == refs_of(t[b1].1)[q]);
                assert(refs_of(t[a1].1)[p] == refs_of(t[b1].1)[q]);
                assert(false);
            }
        }
    }
}

/// Dissolving the splitter above the tabs node `x` keeps each part of the
/// tree invariant, and afterwards nothing refers to `x` any more.
#[verifier::rlimit(60)]
#[verifier::spinoff_prover]
pub proof fn lemma_unsplit_tabs_wf(t: TreeV, x: ItemId)
    requires
        keys_unique(t),
        refs_ok(t),
        refs_unique(t),
        tabs_typed(t),
        is_tabs_at(t, x),
    ensures
        keys_unique(unsplit_tabs_spec(t, x)),
        refs_ok(unsplit_tabs_spec(t, x)),
        refs_unique(unsplit_tabs_spec(t, x)),
        tabs_typed(unsplit_tabs_spec(t, x)),
        sel_ok_except(t, x) ==> sel_ok_except(unsplit_tabs_spec(t, x), x),
        no_refs_to(unsplit_tabs_spec(t, x), x),
        first_where(t, splitter_with(x)) >= 0 ==> first_where(
            unsplit_tabs_spec(t, x),
            key_is::<DockItemV>(x),
        ) < 0,
        first_where(t, splitter_with(x)) < 0 ==> unsplit_tabs_spec(t, x) == t,
{
    let i = first_where(t, splitter_with(x));
    lemma_first_where(t, splitter_with(x));
    let kx = first_where(t, key_is::<DockItemV>(x));
    lemma_first_where(t, key_is::<DockItemV>(x));
    if i < 0 {
        assert(unsplit_tabs_spec(t, x) == t);
        lemma_no_refs_from_tabs_typed(t, x, kx);
        assert forall|a: int, p: int|
            0 <= a < t.len() && 0 <= p < refs_of((#[trigger] t[a]).1).len() implies #[trigger] refs_of(
            t[a].1,
        )[p] != x by {
            if refs_of(t[a].1)[p] == x {
                if is_splitter(t[a].1) {
                    assert(refs_of(t[a].1) == seq![child_a(t[a].1), child_b(t[a].1)]);
                    assert(splitter_has_child(t[a].1, x));
                    assert(splitter_with(x)(t[a]));
                } else if is_tabs(t[a].1) {
                    assert(tabs_of(t[a].1) == refs_of(t[a].1));
                    assert(tabs_of(t[a].1)[p] == x);
                }
            }
        }
    } else {
        let sp = t[i].0;
        let sib = unsplit_sibling(t, x);
        let t1 = set_parent_split_spec(t, sp, sib);
        lemma_unsplit_t1(t, x);
        lemma_unsplit_rm1(t, x);
        let rm1 = seq_remove_key(t1, sp);
        lemma_remove_key_wf(t1, sp, x);
        assert(keys_unique(rm1) && refs_ok(rm1) && tabs_typed(rm1));
        assert(no_outside_refs_to(rm1, x));
        let u = seq_remove_key(rm1, x);
        assert(unsplit_tabs_spec(t, x) == u);
        lemma_remove_key_wf(rm1, x, x);
        assert(keys_unique(u) && refs_ok(u) && tabs_typed(u) && refs_unique(u));
        if sel_ok_except(t, x) {
            assert(sel_ok_except(t1, x));
            assert(sel_ok_except(rm1, x));
            assert(sel_ok_except(u, x));
        }
        let kx2 = first_where(rm1, key_is::<DockItemV>(x));
        lemma_first_where(rm1, key_is::<DockItemV>(x));
        if kx2 >= 0 {
            assert forall|a: int, p: int|
                0 <= a < u.len() && 0 <= p < refs_of((#[trigger] u[a]).1).len() implies #[trigger] refs_of(
                u[a].1,
            )[p] != x by {
                assert(u[a] == rm1[unremove(kx2, a)]);
            }
            assert forall|a: int| 0 <= a < u.len() implies (#[trigger] u[a]).0 != x by {
                assert(u[a] == rm1[unremove(kx2, a)]);
                if u[a].0 == x {
                    assert(rm1[unremove(kx2, a)].0 == x && rm1[kx2].0 == x);
                    assert(unremove(kx2, a) != kx2);
                }
            }
            let fu = first_where(u, key_is::<DockItemV>(x));
            lemma_first_where(u, key_is::<DockItemV>(x));
            if fu >= 0 {
                assert(u[fu].0 == x);
            }
        } else {
            assert(u == rm1);
            // the x entry survived the first removal, so it is found
            lemma_first_where_same_keys(set_parent_split_spec(t, t[i].0, sib), t, x);
            let kx1 = first_where(set_parent_split_spec(t, t[i].0, sib), key_is::<DockItemV>(x));
            assert(kx1 == kx);
            lemma_unsplit_t1(t, x);
            assert(kx != i);
            let sp = t[i].0;
            lemma_first_where_same_keys(set_parent_split_spec(t, sp, sib), t, sp);
            assert(rm1 =~= set_parent_split_spec(t, sp, sib).remove(i));
            let kxr: int = if kx < i {
                kx
            } else {
                kx - 1
            };
            assert(rm1[kxr] == set_parent_split_spec(t, sp, sib)[kx]);
            assert(rm1[kxr].0 == x);
            lemma_first_where_found(rm1, key_is::<DockItemV>(x), kxr);
            assert(false);
        }
        assert(no_refs_to(u, x));
    }
}

/// Dissolving the splitter above a tabs node keeps the whole tree
/// invariant: the node's own entry is gone afterwards, so its selection no
/// longer matters.
pub proof fn lemma_unsplit_tabs_full_wf(t: TreeV, x: ItemId)
    requires
        tree_wf(t),
        is_tabs_at(t, x),
    ensures
        tree_wf(unsplit_tabs_spec(t, x)),
{
    lemma_unsplit_tabs_wf(t, x);
    let i = first_where(t, splitter_with(x));
    let u = unsplit_tabs_spec(t, x);
    if i >= 0 {
        let fu = first_where(u, key_is::<DockItemV>(x));
        lemma_first_where(u, key_is::<DockItemV>(x));
        assert forall|a: int|
            0 <= a < u.len() && is_tabs((#[trigger] u[a]).1) implies 0 < tabs_of(u[a].1).len() && 0
                <= sel_of(u[a].1) < tabs_of(u[a].1).len() by {
            if u[a].0 == x {
                lemma_first_where_found(u, key_is::<DockItemV>(x), a);
                assert(false);
            }
        }
        assert(sel_ok(u));
    }
}

/// Taking `x` out of the tab list of its owning tabs node keeps every part
/// of the invariant except the owner's own selection bound, and afterwards
/// nothing refers to `x` any more.
#[verifier::spinoff_prover]
proof fn lemma_close_shrink(t: TreeV, x: ItemId)
    requires
        tree_wf(t),
        first_where(t, tabs_with(x)) >= 0,
    ensures
        ({
            let j = first_where(t, tabs_with(x));
            let owner = t[j].0;
            let tb = tabs_of(t[j].1);
            let sel = sel_of(t[j].1);
            let p = id_idx(tb, x);
            let tb2 = tb.remove(p);
            let t1 = t.update(j, (owner, DockItemV::Tabs { tabs: tb2, selected: sel }));
            &&& 0 <= p < tb.len() && tb[p] == x
            &&& 0 <= sel < tb.len()
            &&& keys_unique(t1)
            &&& refs_ok(t1)
            &&& refs_unique(t1)
            &&& tabs_typed(t1)
            &&& sel_ok_except(t1, owner)
            &&& no_refs_to(t1, x)
            &&& first_where(t, key_is::<DockItemV>(x)) >= 0
            &&& is_tab(t[first_where(t, key_is::<DockItemV>(x))].1)
            &&& first_where(t, key_is::<DockItemV>(x)) != j
            &&& forall|k: int| 0 <= k < t.len() ==> (#[trigger] t1[k]).0 == t[k].0
            &&& forall|a: int| 0 <= a < t.len() && a != j ==> #[trigger] t1[a] == t[a]
            &&& refs_of(t1[j].1) == tb2 && tabs_of(t1[j].1) == tb2
            &&& forall|q: int| 0 <= q < tb2.len() ==> #[trigger] tb2[q] == tb[unremove(p, q)]
        }),
{
    let j = first_where(t, tabs_with(x));
    lemma_first_where(t, tabs_with(x));
    assert(tabs_has(t[j].1, x));
    let owner = t[j].0;
    let tb = tabs_of(t[j].1);
    let sel = sel_of(t[j].1);
    let wi = choose|wi: int| 0 <= wi < tb.len() && tb[wi] == x;
    assert(id_is(x)(tb[wi]));
    lemma_first_where_found(tb, id_is(x), wi);
    lemma_first_where(tb, id_is(x));
    let p = id_idx(tb, x);
    assert(0 <= p < tb.len() && tb[p] == x);
    let tb2 = tb.remove(p);
    let t1 = t.update(j, (owner, DockItemV::Tabs { tabs: tb2, selected: sel }));
    assert(refs_of(t[j].1) == tb);
    assert(refs_of(t1[j].1) == tb2);
    assert forall|q: int| 0 <= q < tb2.len() implies #[trigger] tb2[q] == tb[unremove(p, q)] by {}
    assert(keys_unique(t1));
    // the x entry is a tab leaf elsewhere in the tree
    assert(refs_of(t[j].1)[p] == x);
    let kx = first_where(t, key_is::<DockItemV>(x));
    lemma_first_where(t, key_is::<DockItemV>(x));
    assert(kx >= 0);
    assert(tabs_of(t[j].1)[p] == x);
    assert(is_tab_at(t, x));
    assert(is_tab(t[kx].1));
    assert(kx != j);
    // nothing refers to x any more: its only reference slot was (j, p)
    assert forall|a: int, q: int|
        0 <= a < t1.len() && 0 <= q < refs_of((#[trigger] t1[a]).1).len() implies #[trigger] refs_of(
        t1[a].1,
    )[q] != x by {
        if refs_of(t1[a].1)[q] == x {
            if a == j {
                assert(refs_of(t1[a].1)[q] == tb[unremove(p, q)]);
                assert(refs_of(t[j].1)[unremove(p, q)] == x);
                assert(unremove(p, q) != p);
                assert(false);
            } else {
                assert(refs_of(t[a].1)[q] == x);
                assert((a != j || q != p));
                assert(false);
            }
        }
    }
    assert forall|a: int, q: int|
        0 <= a < t1.len() && 0 <= q < refs_of(t1[a].1).len() implies first_where(
        t1,
        key_is::<DockItemV>(#[trigger] refs_of((#[trigger] t1[a]).1)[q]),
    ) >= 0 by {
        let r = refs_of(t1[a].1)[q];
        lemma_first_where_same_keys(t1, t, r);
        if a == j {
            assert(r == tb[unremove(p, q)]);
            assert(refs_of(t[j].1)[unremove(p, q)] == r);
        } else {
            assert(refs_of(t[a].1)[q] == r);
        }
    }
    assert forall|a: int, q: int, b: int, w: int|
        0 <= a < t1.len() && 0 <= q < refs_of(t1[a].1).len() && 0 <= b < t1.len() && 0 <= w
            < refs_of(t1[b].1).len() && (a != b || q != w) implies #[trigger] refs_of(
        t1[a].1,
    )[q] != #[trigger] refs_of(t1[b].1)[w] by {
        let qa = if a == j {
            unremove(p, q)
        } else {
            q
        };
        let wb = if b == j {
            unremove(p, w)
        } else {
            w
        };
        assert(refs_of(t1[a].1)[q] == refs_of(t[a].1)[qa]);
        assert(refs_of(t1[b].1)[w] == refs_of(t[b].1)[wb]);
        assert((a != b || qa != wb));
    }
    assert forall|a: int, q: int|
        0 <= a < t1.len() && is_tabs((#[trigger] t1[a]).1) && 0 <= q < tabs_of(
            t1[a].1,
        ).len() implies is_tab_at(t1, #[trigger] tabs_of(t1[a].1)[q]) by {
        let r = tabs_of(t1[a].1)[q];
        let qa = if a == j {
            unremove(p, q)
        } else {
            q
        };
        assert(tabs_of(t1[a].1) == refs_of(t1[a].1));
        assert(tabs_of(t[a].1)[qa] == r);
        assert(is_tab_at(t, r));
        let w = first_where(t, key_is::<DockItemV>(r));
        lemma_first_where(t, key_is::<DockItemV>(r));
        lemma_first_where_same_keys(t1, t, r);
        if w == j {
            assert(is_tabs(t[j].1) && is_tab(t[j].1));
            assert(false);
        }
        assert(t1[w] == t[w]);
    }
    assert forall|a: int|
        0 <= a < t1.len() && (#[trigger] t1[a]).0 != owner && is_tabs(t1[a].1) implies 0 < tabs_of(
        t1[a].1,
    ).len() && 0 <= sel_of(t1[a].1) < tabs_of(t1[a].1).len() by {
        if a == j {
            assert(t1[a].0 == owner);
        } else {
            assert(t1[a] == t[a]);
        }
    }
}

/// Closing a tab keeps the tree invariant: P1 and P2 for `close_tab`.
#[verifier::rlimit(60)]
#[verifier::spinoff_prover]
pub proof fn lemma_close_tab_wf(t: TreeV, x: ItemId)
    requires
        tree_wf(t),
    ensures
        tree_wf(close_tab_spec(t, x)),
{
    let j = first_where(t, tabs_with(x));
    lemma_first_where(t, tabs_with(x));
    if j >= 0 {
        lemma_close_shrink(t, x);
        let owner = t[j].0;
        let tb = tabs_of(t[j].1);
        let sel = sel_of(t[j].1);
        let p = id_idx(tb, x);
        let tb2 = tb.remove(p);
        let t1 = t.update(j, (owner, DockItemV::Tabs { tabs: tb2, selected: sel }));
        if tb2.len() == 0 {
            let t2 = seq_remove_key(t1, x);
            lemma_remove_key_wf(t1, x, owner);
            assert(keys_unique(t2) && refs_ok(t2) && refs_unique(t2) && tabs_typed(t2));
            assert(sel_ok_except(t2, owner));
            // the owner entry survives into t2 and is still a tabs node
            let kx1 = first_where(t1, key_is::<DockItemV>(x));
            lemma_first_where_same_keys(t1, t, x);
            let kx = first_where(t, key_is::<DockItemV>(x));
            lemma_first_where(t, key_is::<DockItemV>(x));
            assert(kx1 == kx && kx >= 0 && kx != j);
            assert(0 <= kx < t1.len());
            assert(t2 =~= t1.remove(kx));
            assert(t2.len() == t1.len() - 1);
            assert forall|a: int| 0 <= a < t2.len() implies #[trigger] t2[a] == t1[unremove(
                kx,
                a,
            )] by {}
            let j2: int = if j < kx {
                j
            } else {
                j - 1
            };
            assert(0 <= j2 < t2.len());
            assert(unremove(kx, j2) == j);
            assert(t2[j2] == t1[j]);
            assert(t2[j2].0 == owner && is_tabs(t2[j2].1));
            lemma_first_where_found(t2, key_is::<DockItemV>(owner), j2);
            let fo = first_where(t2, key_is::<DockItemV>(owner));
            lemma_first_where(t2, key_is::<DockItemV>(owner));
            if fo != j2 {
                assert(t2[fo].0 == t2[j2].0);
                assert(false);
            }
            assert(is_tabs_at(t2, owner));
            let u = unsplit_tabs_spec(t2, owner);
            lemma_unsplit_tabs_wf(t2, owner);
            let fin = seq_remove_key(u, owner);
            lemma_remove_key_wf(u, owner, owner);
            assert(keys_unique(fin) && refs_ok(fin) && refs_unique(fin) && tabs_typed(fin));
            assert(sel_ok_except(fin, owner));
            // no entry keyed owner remains, so the exception is vacuous
            let ko = first_where(u, key_is::<DockItemV>(owner));
            lemma_first_where(u, key_is::<DockItemV>(owner));
            assert forall|a: int|
                0 <= a < fin.len() && is_tabs((#[trigger] fin[a]).1) implies 0 < tabs_of(
                fin[a].1,
            ).len() && 0 <= sel_of(fin[a].1) < tabs_of(fin[a].1).len() by {
                if fin[a].0 == owner {
                    if ko >= 0 {
                        assert(fin[a] == u[unremove(ko, a)]);
                        assert(u[unremove(ko, a)].0 == owner && u[ko].0 == owner);
                        assert(unremove(ko, a) != ko);
                        assert(false);
                    } else {
                        assert(fin == u);
                        lemma_first_where_found(u, key_is::<DockItemV>(owner), a);
                        assert(false);
                    }
                }
            }
            assert(sel_ok(fin));
            assert(close_tab_spec(t, x) == fin);
        } else {
            assert(0 <= sel < tb.len());
            let next = if sel >= tb2.len() {
                tb2[tb2.len() - 1]
            } else {
                tb2[sel]
            };
            assert(tb2.contains(next));
            // the first tabs node listing `next` is the owner itself
            assert(tabs_has(t1[j].1, next));
            assert(tabs_with(next)((owner, t1[j].1)));
            lemma_first_where_found(t1, tabs_with(next), j);
            let j2 = first_where(t1, tabs_with(next));
            lemma_first_where(t1, tabs_with(next));
            if j2 != j {
                assert(tabs_has(t1[j2].1, next));
                assert(t1[j2] == t[j2]);
                let q2 = choose|q2: int| 0 <= q2 < tabs_of(t[j2].1).len() && tabs_of(t[j2].1)[q2]
                    == next;
                let qn = choose|qn: int| 0 <= qn < tb2.len() && tb2[qn] == next;
                assert(refs_of(t[j2].1)[q2] == next);
                assert(refs_of(t[j].1)[unremove(p, qn)] == next);
                assert(refs_of(t[j2].1)[q2] != refs_of(t[j].1)[unremove(p, qn)]);
                assert(false);
            }
            let t3 = select_tab_spec(t1, next);
            let wn = choose|wn: int| 0 <= wn < tb2.len() && tb2[wn] == next;
            assert(id_is(next)(tb2[wn]));
            lemma_first_where_found(tb2, id_is(next), wn);
            lemma_first_where(tb2, id_is(next));
            assert(0 <= id_idx(tb2, next) < tb2.len());
            assert(t3 == t1.update(
                j,
                (owner, DockItemV::Tabs { tabs: tb2, selected: id_idx(tb2, next) }),
            ));
            assert(t3.len() == t1.len());
            assert(forall|k: int| 0 <= k < t1.len() ==> (#[trigger] t3[k]).0 == t1[k].0);
            assert(forall|a: int|
                0 <= a < t1.len() ==> refs_of((#[trigger] t3[a]).1) == refs_of(t1[a].1));
            assert(keys_unique(t3));
            assert forall|a: int, q: int|
                0 <= a < t3.len() && 0 <= q < refs_of(t3[a].1).len() implies first_where(
                t3,
                key_is::<DockItemV>(#[trigger] refs_of((#[trigger] t3[a]).1)[q]),
            ) >= 0 by {
                let r = refs_of(t3[a].1)[q];
                assert(refs_of(t1[a].1)[q] == r);
                lemma_first_where_same_keys(t3, t1, r);
            }
            assert forall|a: int, q: int, b: int, w: int|
                0 <= a < t3.len() && 0 <= q < refs_of(t3[a].1).len() && 0 <= b < t3.len() && 0 <= w
                    < refs_of(t3[b].1).len() && (a != b || q != w) implies #[trigger] refs_of(
                t3[a].1,
            )[q] != #[trigger] refs_of(t3[b].1)[w] by {
                assert(refs_of(t3[a].1) == refs_of(t1[a].1));
                assert(refs_of(t3[b].1) == refs_of(t1[b].1));
            }
            assert forall|a: int, q: int|
                0 <= a < t3.len() && is_tabs((#[trigger] t3[a]).1) && 0 <= q < tabs_of(
                    t3[a].1,
                ).len() implies is_tab_at(t3, #[trigger] tabs_of(t3[a].1)[q]) by {
                let r = tabs_of(t3[a].1)[q];
                assert(tabs_of(t3[a].1) == refs_of(t3[a].1));
                assert(tabs_of(t1[a].1) == refs_of(t1[a].1));
                assert(tabs_of(t1[a].1)[q] == r);
                assert(is_tab_at(t1, r));
                let w = first_where(t1, key_is::<DockItemV>(r));
                lemma_first_where(t1, key_is::<DockItemV>(r));
                lemma_first_where_same_keys(t3, t1, r);
                if w == j {
                    assert(is_tabs(t1[j].1) && is_tab(t1[j].1));
                    assert(false);
                }
                assert(t3[w] == t1[w]);
            }
            assert forall|a: int|
                0 <= a < t3.len() && is_tabs((#[trigger] t3[a]).1) implies 0 < tabs_of(
                t3[a].1,
            ).len() && 0 <= sel_of(t3[a].1) < tabs_of(t3[a].1).len() by {
                if a != j {
                    assert(t3[a] == t1[a]);
                    assert(t1[a] == t[a]);
                }
            }
            assert(sel_ok(t3));
            let fin = seq_remove_key(t3, x);
            assert forall|a: int, q: int|
                0 <= a < t3.len() && 0 <= q < refs_of((#[trigger] t3[a]).1).len() implies #[trigger] refs_of(
                t3[a].1,
            )[q] != x by {
                assert(refs_of(t3[a].1) == refs_of(t1[a].1));
            }
            lemma_remove_key_wf(t3, x, x);
            assert(keys_unique(fin) && refs_ok(fin) && refs_unique(fin) && tabs_typed(fin));
            assert(sel_ok(fin));
            assert(close_tab_spec(t, x) == fin);
        }
    }
}

/// Re-pointing a tabs node's selection at a member keeps the invariant.
pub proof fn lemma_set_selected_wf(t: TreeV, k: int, sel2: int)
    requires
        tree_wf(t),
        0 <= k < t.len(),
        is_tabs(t[k].1),
        0 <= sel2 < tabs_of(t[k].1).len(),
    ensures
        tree_wf(
            t.update(k, (t[k].0, DockItemV::Tabs { tabs: tabs_of(t[k].1), selected: sel2 })),
        ),
{
    let u = t.update(k, (t[k].0, DockItemV::Tabs { tabs: tabs_of(t[k].1), selected: sel2 }));
    assert(refs_of(u[k].1) == refs_of(t[k].1));
    assert(forall|i: int| 0 <= i < t.len() ==> refs_of((#[trigger] u[i]).1) == refs_of(t[i].1));
    assert(forall|i: int| 0 <= i < t.len() ==> (#[trigger] u[i]).0 == t[i].0);
    assert(keys_unique(u));
    assert forall|i: int| 0 <= i < u.len() && is_tabs((#[trigger] u[i]).1) implies 0 < tabs_of(
        u[i].1,
    ).len() && 0 <= sel_of(u[i].1) < tabs_of(u[i].1).len() by {
        if i != k {
            assert(u[i] == t[i]);
        }
    }
    assert forall|i: int, p: int|
        0 <= i < u.len() && 0 <= p < refs_of(u[i].1).len() implies first_where(
        u,
        key_is::<DockItemV>(#[trigger] refs_of((#[trigger] u[i]).1)[p]),
    ) >= 0 by {
        let r = refs_of(u[i].1)[p];
        assert(refs_of(t[i].1)[p] == r);
        lemma_first_where_same_keys(u, t, r);
    }
    assert forall|i: int, p: int, a: int, q: int|
        0 <= i < u.len() && 0 <= p < refs_of(u[i].1).len() && 0 <= a < u.len() && 0 <= q < refs_of(
            u[a].1,
        ).len() && (i != a || p != q) implies #[trigger] refs_of(u[i].1)[p] != #[trigger] refs_of(
        u[a].1,
    )[q] by {
        assert(refs_of(u[i].1) == refs_of(t[i].1));
        assert(refs_of(u[a].1) == refs_of(t[a].1));
    }
    assert forall|i: int, p: int|
        0 <= i < u.len() && is_tabs((#[trigger] u[i]).1) && 0 <= p < tabs_of(
            u[i].1,
        ).len() implies is_tab_at(u, #[trigger] tabs_of(u[i].1)[p]) by {
        let r = tabs_of(u[i].1)[p];
        assert(tabs_of(u[i].1) == refs_of(u[i].1));
        assert(refs_of(t[i].1)[p] == r);
        assert(tabs_of(t[i].1)[p] == r);
        assert(is_tab_at(t, r));
        lemma_first_where_same_keys(u, t, r);
        let w = first_where(t, key_is::<DockItemV>(r));
        lemma_first_where(t, key_is::<DockItemV>(r));
        if w == k {
            assert(is_tabs(t[k].1) && is_tab(t[k].1));
            assert(false);
        }
        assert(u[w] == t[w]);
    }
}

/// Re-pointing a splitter's axis and alignment keeps the invariant: the
/// children and every other node are untouched.
pub proof fn lemma_splitter_changed_wf(t: TreeV, k: int, x: DockItemV)
    requires
        tree_wf(t),
        0 <= k < t.len(),
        is_splitter(t[k].1),
        is_splitter(x),
        child_a(x) == child_a(t[k].1),
        child_b(x) == child_b(t[k].1),
    ensures
        tree_wf(t.update(k, (t[k].0, x))),
{
    let u = t.update(k, (t[k].0, x));
    assert(refs_of(u[k].1) =~= refs_of(t[k].1));
    assert(forall|i: int| 0 <= i < t.len() ==> refs_of((#[trigger] u[i]).1) == refs_of(t[i].1));
    assert(forall|i: int| 0 <= i < t.len() ==> (#[trigger] u[i]).0 == t[i].0);
    assert(keys_unique(u));
    assert forall|i: int| 0 <= i < u.len() && is_tabs((#[trigger] u[i]).1) implies 0 < tabs_of(
        u[i].1,
    ).len() && 0 <= sel_of(u[i].1) < tabs_of(u[i].1).len() by {
        if i != k {
            assert(u[i] == t[i]);
        } else {
            assert(!is_tabs(u[i].1));
        }
    }
    assert forall|i: int, p: int|
        0 <= i < u.len() && 0 <= p < refs_of(u[i].1).len() implies first_where(
        u,
        key_is::<DockItemV>(#[trigger] refs_of((#[trigger] u[i]).1)[p]),
    ) >= 0 by {
        let r = refs_of(u[i].1)[p];
        assert(refs_of(t[i].1)[p] == r);
        lemma_first_where_same_keys(u, t, r);
    }
    assert forall|i: int, p: int, a: int, q: int|
        0 <= i < u.len() && 0 <= p < refs_of(u[i].1).len() && 0 <= a < u.len() && 0 <= q < refs_of(
            u[a].1,
        ).len() && (i != a || p != q) implies #[trigger] refs_of(u[i].1)[p] != #[trigger] refs_of(
        u[a].1,
    )[q] by {
        assert(refs_of(u[i].1) == refs_of(t[i].1));
        assert(refs_of(u[a].1) == refs_of(t[a].1));
    }
    assert forall|i: int, p: int|
        0 <= i < u.len() && is_tabs((#[trigger] u[i]).1) && 0 <= p < tabs_of(
            u[i].1,
        ).len() implies is_tab_at(u, #[trigger] tabs_of(u[i].1)[p]) by {
        let r = tabs_of(u[i].1)[p];
        assert(i != k);
        assert(u[i] == t[i]);
        assert(tabs_of(t[i].1)[p] == r);
        assert(is_tab_at(t, r));
        lemma_first_where_same_keys(u, t, r);
        let w = first_where(t, key_is::<DockItemV>(r));
        lemma_first_where(t, key_is::<DockItemV>(r));
        if w == k {
            assert(is_splitter(t[k].1) && is_tab(t[k].1));
            assert(false);
        }
        assert(u[w] == t[w]);
    }
}

/// The round trip of dissolving a split: when the tabs node `x` sits under
/// a splitter that some other splitter `g` points at, unsplitting removes
/// both the `x` node and its splitter from the tree and rewrites `g`'s slot
/// to the former sibling. Together with `close_tab_spec`, whose empty
/// branch is exactly this dissolution after the last tab and its `Tab` node
/// are removed, this is the law that closing the only tab of a panel
/// re-links the sibling into the slot that led to the panel.
#[verifier::rlimit(100)]
#[verifier::spinoff_prover]
pub proof fn lemma_unsplit_relinks(t: TreeV, x: ItemId, g: int)
    requires
        keys_unique(t),
        refs_ok(t),
        refs_unique(t),
        tabs_typed(t),
        is_tabs_at(t, x),
        first_where(t, splitter_with(x)) >= 0,
        0 <= g < t.len(),
        splitter_has_child(t[g].1, t[first_where(t, splitter_with(x))].0),
        g != first_where(t, splitter_with(x)),
    ensures
        ({
            let i = first_where(t, splitter_with(x));
            let sp = t[i].0;
            let sib = unsplit_sibling(t, x);
            let u = unsplit_tabs_spec(t, x);
            &&& first_where(u, key_is::<DockItemV>(x)) < 0
            &&& first_where(u, key_is::<DockItemV>(sp)) < 0
            &&& lookup(u, t[g].0) == Option::Some(replace_child(t[g].1, sp, sib))
        }),
{
    let i = first_where(t, splitter_with(x));
    lemma_first_where(t, splitter_with(x));
    let sp = t[i].0;
    let sib = unsplit_sibling(t, x);
    let t1 = set_parent_split_spec(t, sp, sib);
    let gf = first_where(t, splitter_with(sp));
    lemma_first_where(t, splitter_with(sp));
    let kx0 = first_where(t, key_is::<DockItemV>(x));
    lemma_first_where(t, key_is::<DockItemV>(x));
    assert(kx0 >= 0 && is_tabs(t[kx0].1));
    // the splitter entry is the first one keyed sp
    lemma_first_where_found(t, key_is::<DockItemV>(sp), i);
    let ksp = first_where(t, key_is::<DockItemV>(sp));
    lemma_first_where(t, key_is::<DockItemV>(sp));
    if ksp != i {
        assert(t[ksp].0 == t[i].0);
        assert(false);
    }
    // the hypothesis splitter g is the one the re-link scan finds: only one
    // reference to sp exists
    let gs: int = if child_a(t[g].1) == sp {
        0
    } else {
        1
    };
    assert(refs_of(t[g].1) == seq![child_a(t[g].1), child_b(t[g].1)]);
    assert(refs_of(t[g].1)[gs] == sp);
    assert forall|k: int| 0 <= k < g implies !(splitter_with(sp)(#[trigger] t[k])) by {
        if splitter_with(sp)(t[k]) {
            let ks: int = if child_a(t[k].1) == sp {
                0
            } else {
                1
            };
            assert(refs_of(t[k].1) == seq![child_a(t[k].1), child_b(t[k].1)]);
            assert(refs_of(t[k].1)[ks] == sp);
            assert(refs_of(t[k].1)[ks] != refs_of(t[g].1)[gs]);
        }
    }
    lemma_first_where_is(t, splitter_with(sp), g);
    assert(gf == g);
    assert(t1 == t.update(g, (t[g].0, replace_child(t[g].1, sp, sib))));
    // the entry keyed sp sits at index i of t1
    lemma_first_where_same_keys(t1, t, sp);
    let rm1 = seq_remove_key(t1, sp);
    assert(first_where(t, key_is::<DockItemV>(sp)) == i);
    assert(rm1 =~= t1.remove(i));
    assert(rm1.len() == t1.len() - 1);
    assert forall|a: int| 0 <= a < rm1.len() implies #[trigger] rm1[a] == t1[unremove(i, a)] by {}
    // no entry keyed sp is left
    assert forall|a: int| 0 <= a < rm1.len() implies (#[trigger] rm1[a]).0 != sp by {
        assert(rm1[a] == t1[unremove(i, a)]);
        assert(unremove(i, a) != i);
        if rm1[a].0 == sp {
            assert(t1[unremove(i, a)].0 == t1[i].0);
        }
    }
    // the x entry survives at its shifted index and is the only one
    let kx = first_where(t, key_is::<DockItemV>(x));
    lemma_first_where(t, key_is::<DockItemV>(x));
    assert(kx >= 0);
    assert(kx != i);
    let kxr: int = if kx < i {
        kx
    } else {
        kx - 1
    };
    assert(rm1[kxr] == t1[kx]);
    assert(rm1[kxr].0 == x);
    let u = seq_remove_key(rm1, x);
    assert(unsplit_tabs_spec(t, x) == u);
    lemma_first_where_found(rm1, key_is::<DockItemV>(x), kxr);
    let kx2 = first_where(rm1, key_is::<DockItemV>(x));
    lemma_first_where(rm1, key_is::<DockItemV>(x));
    assert(u =~= rm1.remove(kx2));
    assert(u.len() == rm1.len() - 1);
    assert forall|a: int| 0 <= a < u.len() implies #[trigger] u[a] == rm1[unremove(kx2, a)] by {}
    // no entry keyed sp or x is left in u
    assert forall|a: int| 0 <= a < u.len() implies (#[trigger] u[a]).0 != sp && u[a].0 != x by {
        assert(u[a] == rm1[unremove(kx2, a)]);
        if u[a].0 == x {
            assert(rm1[unremove(kx2, a)].0 == rm1[kx2].0);
            assert(unremove(kx2, a) != kx2);
        }
    }
    let fx = first_where(u, key_is::<DockItemV>(x));
    lemma_first_where(u, key_is::<DockItemV>(x));
    if fx >= 0 {
        assert(u[fx].0 == x);
        assert(false);
    }
    let fsp = first_where(u, key_is::<DockItemV>(sp));
    lemma_first_where(u, key_is::<DockItemV>(sp));
    if fsp >= 0 {
        assert(u[fsp].0 == sp);
        assert(false);
    }
    // the grandparent's rewritten entry survives both removals
    let gkey = t[g].0;
    assert(g != kx) by {
        if g == kx {
            assert(t[kx].0 == x);
            assert(is_tabs(t[kx].1));
            assert(is_splitter(t[g].1));
        }
    }
    let g1: int = if g < i {
        g
    } else {
        g - 1
    };
    assert(rm1[g1] == t1[g]);
    assert(g1 != kx2) by {
        if g1 == kx2 {
            assert(rm1[g1].0 == x);
            assert(t1[g].0 == gkey);
            assert(gkey == x);
            lemma_first_where_found(t, key_is::<DockItemV>(x), g);
            if kx != g {
                assert(t[kx].0 == t[g].0);
                assert(false);
            }
            assert(is_tabs(t[g].1) && is_splitter(t[g].1));
            assert(false);
        }
    }
    let g2: int = if g1 < kx2 {
        g1
    } else {
        g1 - 1
    };
    assert(u[g2] == rm1[g1]);
    assert(u[g2] == (gkey, replace_child(t[g].1, sp, sib)));
    lemma_first_where_found(u, key_is::<DockItemV>(gkey), g2);
    let fg = first_where(u, key_is::<DockItemV>(gkey));
    lemma_first_where(u, key_is::<DockItemV>(gkey));
    assert(fg >= 0 && u[fg].0 == gkey);
    // keys are unique in u, so the found entry is the grandparent's
    assert(fg == g2) by {
        if fg != g2 {
            let a1 = unremove(i, unremove(kx2, fg));
            let b1 = unremove(i, unremove(kx2, g2));
            assert(u[fg] == t1[a1] && u[g2] == t1[b1]);
            assert(t1[a1].0 == t1[b1].0);
            assert(a1 != b1);
        }
    }
    assert(lookup(u, gkey) == Option::Some(replace_child(t[g].1, sp, sib)));
}

} // verus!
