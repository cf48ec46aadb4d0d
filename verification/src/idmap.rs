//! Identifiers and the insertion-ordered keyed mapping that the dock keeps
//! its nodes and runtime state in.
//!
//! The mapping is a vector of key/value entries. Iteration order is insertion
//! order, and the scans that the mutation operations perform pick the first
//! entry that matches, so the contracts below speak of the first index at
//! which a predicate holds.

use vstd::prelude::*;

verus! {

/// An opaque interned key naming a dock node, a tab, or a template kind.
/// Equality is exact; no ordering is implied.
#[derive(Clone, Copy, Debug, PartialEq, Eq, Hash, Structural)]
pub struct ItemId(pub u64);

/// The first index of `s` at which `pred` holds, or `-1` if it holds nowhere.
pub open spec fn first_where<T>(s: Seq<T>, pred: spec_fn(T) -> bool) -> int
    decreases s.len(),
{
    if s.len() == 0 {
        -1
    } else if pred(s[0]) {
        0
    } else {
        let r = first_where(s.drop_first(), pred);
        if r < 0 {
            -1
        } else {
            r + 1
        }
    }
}

/// What `first_where` returns: a match with no earlier match, or no match at
/// all.
pub proof fn lemma_first_where<T>(s: Seq<T>, pred: spec_fn(T) -> bool)
    ensures
        first_where(s, pred) >= 0 ==> first_where(s, pred) < s.len() && pred(
            s[first_where(s, pred)],
        ) && (forall|k: int| 0 <= k < first_where(s, pred) ==> !pred(#[trigger] s[k])),
        first_where(s, pred) < 0 ==> first_where(s, pred) == -1 && (forall|k: int|
            0 <= k < s.len() ==> !pred(#[trigger] s[k])),
    decreases s.len(),
{
    if s.len() > 0 && !pred(s[0]) {
        lemma_first_where(s.drop_first(), pred);
        assert forall|k: int| 0 <= k < s.len() implies s.drop_first()[k - 1] == s[k] || k == 0 by {}
    }
}

/// The index `i` is the first match exactly when it matches and nothing
/// before it does.
pub proof fn lemma_first_where_is<T>(s: Seq<T>, pred: spec_fn(T) -> bool, i: int)
    requires
        0 <= i < s.len(),
        pred(s[i]),
        forall|k: int| 0 <= k < i ==> !pred(#[trigger] s[k]),
    ensures
        first_where(s, pred) == i,
{
    lemma_first_where(s, pred);
    if first_where(s, pred) < 0 {
        assert(!pred(s[i]));
    } else if first_where(s, pred) < i {
        assert(!pred(s[first_where(s, pred)]));
    } else if first_where(s, pred) > i {
        assert(!pred(s[i]));
    }
}

/// A witness anywhere bounds the first match from above.
pub proof fn lemma_first_where_found<T>(s: Seq<T>, pred: spec_fn(T) -> bool, i: int)
    requires
        0 <= i < s.len(),
        pred(s[i]),
    ensures
        0 <= first_where(s, pred) <= i,
{
    lemma_first_where(s, pred);
    if first_where(s, pred) < 0 {
        assert(!pred(s[i]));
    } else if first_where(s, pred) > i {
        assert(!pred(s[i]));
    }
}

/// There is no match at all exactly when `first_where` reports none.
pub proof fn lemma_first_where_none<T>(s: Seq<T>, pred: spec_fn(T) -> bool)
    requires
        forall|k: int| 0 <= k < s.len() ==> !pred(#[trigger] s[k]),
    ensures
        first_where(s, pred) == -1,
{
    lemma_first_where(s, pred);
    if first_where(s, pred) >= 0 {
        assert(!pred(s[first_where(s, pred)]));
    }
}

/// Matching a key.
pub open spec fn key_is<V>(id: ItemId) -> spec_fn((ItemId, V)) -> bool {
    |e: (ItemId, V)| e.0 == id
}

/// The sequence with the first entry keyed `id` taken out, or unchanged if
/// there is none.
pub open spec fn seq_remove_key<V>(s: Seq<(ItemId, V)>, id: ItemId) -> Seq<(ItemId, V)> {
    let i = first_where(s, key_is(id));
    if i < 0 {
        s
    } else {
        s.remove(i)
    }
}

/// An insertion-ordered mapping from [`ItemId`] to `V`.
pub struct IdMap<V> {
    pub entries: Vec<(ItemId, V)>,
}

impl<V> View for IdMap<V> {
    type V = Seq<(ItemId, V)>;

    open spec fn view(&self) -> Seq<(ItemId, V)> {
        self.entries@
    }
}

impl<V> IdMap<V> {
    /// No key occurs in two entries.
    pub open spec fn keys_unique(self) -> bool {
        forall|i: int, j: int|
            0 <= i < j < self@.len() ==> (#[trigger] self@[i]).0 != (#[trigger] self@[j]).0
    }

    /// The index of the entry keyed `id`, or `-1`.
    pub open spec fn k_idx(self, id: ItemId) -> int {
        first_where(self@, key_is(id))
    }

    pub open spec fn has_key(self, id: ItemId) -> bool {
        self.k_idx(id) >= 0
    }

    /// The value stored under `id`; meaningful only when `has_key` holds.
    pub open spec fn val_of(self, id: ItemId) -> V {
        self@[self.k_idx(id)].1
    }

    pub fn new() -> (r: IdMap<V>)
        ensures
            r@ == Seq::<(ItemId, V)>::empty(),
    {
        IdMap { entries: Vec::new() }
    }

    pub fn len(&self) -> (r: usize)
        ensures
            r == self@.len(),
    {
        self.entries.len()
    }

    /// A reference to the value under `id`, if the key is present.
    pub fn get(&self, id: ItemId) -> (r: Option<&V>)
        ensures
            match r {
                Some(v) => self.has_key(id) && *v == self.val_of(id),
                None => !self.has_key(id),
            },
    {
        let n = self.entries.len();
        let mut i: usize = 0;
        while i < n
            invariant
                n == self@.len(),
                i <= n,
                forall|k: int| 0 <= k < i ==> (#[trigger] self@[k]).0 != id,
            decreases n - i,
        {
            if self.entries[i].0 == id {
                proof {
                    lemma_first_where_is(self@, key_is::<V>(id), i as int);
                }
                return Some(&self.entries[i].1);
            }
            i = i + 1;
        }
        proof {
            lemma_first_where_none(self@, key_is::<V>(id));
        }
        None
    }

    /// Store `v` under `id`: replace the value of an existing entry in place,
    /// else append a new entry.
    pub fn insert(&mut self, id: ItemId, v: V)
        ensures
            old(self).has_key(id) ==> final(self)@ == old(self)@.update(
                old(self).k_idx(id),
                (id, v),
            ),
            !old(self).has_key(id) ==> final(self)@ == old(self)@.push((id, v)),
            old(self).keys_unique() ==> final(self).keys_unique(),
    {
        let n = self.entries.len();
        let mut i: usize = 0;
        while i < n
            invariant
                n == self@.len(),
                i <= n,
                *self == *old(self),
                forall|k: int| 0 <= k < i ==> (#[trigger] self@[k]).0 != id,
            decreases n - i,
        {
            if self.entries[i].0 == id {
                proof {
                    lemma_first_where_is(self@, key_is::<V>(id), i as int);
                }
                self.entries[i] = (id, v);
                proof {
                    if old(self).keys_unique() {
                        assert(final(self).keys_unique());
                    }
                }
                return ;
            }
            i = i + 1;
        }
        proof {
            lemma_first_where_none(self@, key_is::<V>(id));
        }
        self.entries.push((id, v));
        proof {
            if old(self).keys_unique() {
                assert forall|a: int, b: int|
                    0 <= a < b < final(self)@.len() implies (#[trigger] final(self)@[a]).0 != (
                #[trigger] final(self)@[b]).0 by {
                    if b == final(self)@.len() - 1 {
                        assert(old(self)@[a].0 != id);
                    }
                }
            }
        }
    }

    /// Take out the first entry keyed `id`, if any.
    pub fn remove(&mut self, id: ItemId)
        ensures
            final(self)@ == seq_remove_key(old(self)@, id),
            old(self).keys_unique() ==> final(self).keys_unique(),
    {
        let n = self.entries.len();
        let mut i: usize = 0;
        while i < n
            invariant
                n == self@.len(),
                i <= n,
                *self == *old(self),
                forall|k: int| 0 <= k < i ==> (#[trigger] self@[k]).0 != id,
            decreases n - i,
        {
            if self.entries[i].0 == id {
                proof {
                    lemma_first_where_is(self@, key_is::<V>(id), i as int);
                }
                self.entries.remove(i);
                proof {
                    if old(self).keys_unique() {
                        assert forall|a: int, b: int|
                            0 <= a < b < final(self)@.len() implies (#[trigger] final(self)@[a]).0
                            != (#[trigger] final(self)@[b]).0 by {
                            let s = old(self)@;
                            let ai = if a < i as int {
                                a
                            } else {
                                a + 1
                            };
                            let bi = if b < i as int {
                                b
                            } else {
                                b + 1
                            };
                            assert(final(self)@[a] == s[ai]);
                            assert(final(self)@[b] == s[bi]);
                        }
                    }
                }
                return ;
            }
            i = i + 1;
        }
        proof {
            lemma_first_where_none(self@, key_is::<V>(id));
        }
    }
}

} // verus!
