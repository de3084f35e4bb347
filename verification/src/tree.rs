//! The container itself: a slot store, a free-index pool kept sorted, and a
//! cached count of live nodes.

use std::collections::TryReserveError;
use vstd::prelude::*;

use crate::model::{
    children_upto, desc_upto, free_pool_ok, is_child_of, is_free, lemma_children_upto_empty,
    lemma_desc_upto_empty, lemma_desc_upto_props, lemma_free_pool_after_append,
    lemma_free_pool_after_reuse, lemma_free_pool_after_tombstone, lemma_live_count_at_live,
    lemma_live_count_bounds, lemma_live_count_push, lemma_live_count_root,
    lemma_live_count_update, lemma_live_values_len, lemma_ordered_after_tombstone,
    lemma_parents_decide_shape, lemma_push_contains, lemma_reaches_above, lemma_reaches_step,
    lemma_tree_shaped_after_append, lemma_tree_shaped_after_reuse, live, live_count,
    live_values_upto, ordered, reaches, tree_shaped, Slot,
};

verus! {

/// A rooted tree held in a contiguous slot store and addressed by stable
/// integer handles.  Index 0 is permanently the root.
#[derive(Clone, Debug)]
pub struct Heap<T> {
    inner: Vec<Slot<T>>,
    free: Vec<usize>,
    len: usize,
}

impl<T> View for Heap<T> {
    type V = Seq<Slot<T>>;

    closed spec fn view(&self) -> Seq<Slot<T>> {
        self.inner@
    }
}

impl<T> Heap<T> {
    /// The free-index pool, in ascending order.
    pub closed spec fn free_list(&self) -> Seq<usize> {
        self.free@
    }

    /// The free pool is sorted, holds exactly the free indices of the store,
    /// and so in particular always holds the one index just past the store.
    pub open spec fn free_ok(&self) -> bool {
        free_pool_ok(self.free_list(), self@)
    }

    /// The cached length agrees with a full scan of the store.
    pub closed spec fn len_ok(&self) -> bool {
        self.len as int == live_count(self@, self@.len() as int)
    }

    /// Well-formedness: the store is tree shaped, the free pool matches it,
    /// and the cached length counts the live slots.
    pub open spec fn wf(&self) -> bool {
        &&& tree_shaped(self@)
        &&& self.free_ok()
        &&& self.len_ok()
    }

    /// A tree holding only the given root value, at index 0.
    pub fn new(root: T) -> (h: Self)
        ensures
            h.wf(),
            h@.len() == 1,
            h@[0] == (Slot { value: root, parent: None }),
    {
        let mut inner: Vec<Slot<T>> = Vec::new();
        inner.push(Slot { value: root, parent: None });
        Self::from_root_store(inner)
    }

    /// The same tree as [`Heap::new`], with room preallocated for
    /// `capacity` slots.  A capacity hint only: the logical state is
    /// identical to a freshly made tree.
    pub fn with_capacity(capacity: usize, root: T) -> (h: Self)
        ensures
            h.wf(),
            h@.len() == 1,
            h@[0] == (Slot { value: root, parent: None }),
    {
        let mut inner: Vec<Slot<T>> = Vec::with_capacity(capacity);
        inner.push(Slot { value: root, parent: None });
        Self::from_root_store(inner)
    }

    /// The shared tail of the two constructors: wrap a store holding only
    /// the root slot together with its free pool — just the trailing index
    /// 1 — and a count of one.
    fn from_root_store(inner: Vec<Slot<T>>) -> (h: Self)
        requires
            inner@.len() == 1,
            inner@[0].parent is None,
        ensures
            h.wf(),
            h@ == inner@,
    {
        let mut free: Vec<usize> = Vec::new();
        free.push(1);
        let h = Heap { inner, free, len: 1 };
        proof {
            assert(h.free_list() =~= seq![1usize]);
            assert(h.free_list()[0] == 1usize);
            assert(is_free(h@, 1));
            assert forall|i: int| 0 <= i <= h@.len() && #[trigger] is_free(h@, i)
                implies h.free_list().contains(i as usize) by {
                assert(i == 1);
                assert(h.free_list()[0] == i as usize);
            }
            assert(live_count(h@, 0) == 0);
            assert(live(h@, 0));
            assert(live_count(h@, 1) == 1);
        }
        h
    }

    /// True iff `index` denotes a live node: the root, or a slot that
    /// carries a parent link.  Runs in constant time and never fails.
    pub fn is_valid_idx(&self, index: usize) -> (b: bool)
        ensures
            b == live(self@, index as int),
    {
        index == 0 || (index < self.inner.len() && self.inner[index].parent.is_some())
    }

    /// The number of live nodes, root included: always at least one, and
    /// always what a full scan of the store would count.
    pub fn len(&self) -> (n: usize)
        requires
            self.wf(),
        ensures
            n as int == live_count(self@, self@.len() as int),
            n >= 1,
    {
        proof {
            lemma_live_count_root(self@, self@.len() as int);
        }
        self.len
    }

    /// The position in the free pool of the smallest free index strictly
    /// greater than `parent`.  It exists because the pool always holds the
    /// trailing index just past the store.
    fn smallest_free_above(&self, parent: usize) -> (pos: usize)
        requires
            self.wf(),
            (parent as int) < self@.len(),
        ensures
            (pos as int) < self.free_list().len(),
            self.free_list()[pos as int] > parent,
            forall|j: int| 0 <= j < pos ==> self.free_list()[j] <= parent,
    {
        let trailing = self.inner.len();
        proof {
            assert(is_free(self@, trailing as int));
            assert(self.free_list().contains(trailing));
            let m = choose|m: int|
                0 <= m < self.free_list().len() && self.free_list()[m] == trailing;
            assert(self.free_list()[m] > parent);
        }
        let flen = self.free.len();
        let mut k: usize = 0;
        loop
            invariant
                self.wf(),
                flen as int == self.free_list().len(),
                k <= flen,
                forall|j: int| 0 <= j < k ==> self.free_list()[j] <= parent,
                exists|m: int|
                    k <= m < self.free_list().len() && self.free_list()[m] > parent,
            decreases self.free_list().len() - k,
        {
            if self.free[k] > parent {
                return k;
            }
            k = k + 1;
        }
    }

    /// Attach a new node under `parent`, which must be live.  The node is
    /// given the smallest free index strictly greater than `parent` — the
    /// choice that preserves the ordering invariant — either by reusing a
    /// vacated slot in place or by appending to the store.  The returned
    /// index is the node's handle until it is removed.
    pub fn insert(&mut self, node: T, parent: usize) -> (idx: usize)
        requires
            old(self).wf(),
            live(old(self)@, parent as int),
            old(self)@.len() < usize::MAX,
        ensures
            final(self).wf(),
            parent < idx,
            (idx as int) <= old(self)@.len(),
            is_free(old(self)@, idx as int),
            forall|f: int| parent < f < idx ==> !is_free(old(self)@, f),
            (idx as int) == old(self)@.len() ==> final(self)@ == old(self)@.push(
                (Slot { value: node, parent: Some(parent) }),
            ),
            (idx as int) < old(self)@.len() ==> final(self)@ == old(self)@.update(
                idx as int,
                (Slot { value: node, parent: Some(parent) }),
            ),
            live(final(self)@, idx as int),
            live_count(final(self)@, final(self)@.len() as int) == live_count(
                old(self)@,
                old(self)@.len() as int,
            ) + 1,
    {
        let ghost s0 = self@;
        let ghost f0 = self.free_list();
        let ghost new_slot = Slot { value: node, parent: Some(parent) };
        let pos = self.smallest_free_above(parent);
        let chosen = self.free[pos];
        proof {
            lemma_live_count_bounds(s0, s0.len() as int);
            assert(is_free(s0, chosen as int));
            // minimality: a free index strictly between parent and chosen
            // would sit in the pool before `pos`, where everything is
            // at most `parent`
            assert forall|f: int| parent < f < chosen implies !is_free(s0, f) by {
                if is_free(s0, f) {
                    assert(f0.contains(f as usize));
                    let w = choose|w: int| 0 <= w < f0.len() && f0[w] == f as usize;
                    if w < pos {
                        assert(f0[w] <= parent);
                    } else if w > pos {
                        assert(f0[pos as int] < f0[w]);
                    }
                    assert(false);
                }
            }
        }
        self.free.remove(pos);
        let slot_count = self.inner.len();
        if chosen == slot_count {
            self.free.push(chosen + 1);
            self.inner.push(Slot { value: node, parent: Some(parent) });
            proof {
                lemma_free_pool_after_append(f0, s0, pos as int, new_slot);
                assert(self.free_list() == f0.remove(pos as int).push((s0.len() + 1) as usize));
                assert(self@ == s0.push(new_slot));
                lemma_tree_shaped_after_append(s0, parent, new_slot);
                lemma_live_count_push(s0, new_slot, s0.len() as int);
                assert(live(self@, s0.len() as int));
                assert(live_count(self@, self@.len() as int)
                    == live_count(s0, s0.len() as int) + 1);
            }
        } else {
            self.inner.set(chosen, Slot { value: node, parent: Some(parent) });
            proof {
                assert(chosen as int != s0.len());
                assert((chosen as int) < s0.len() && s0[chosen as int].parent is None);
                lemma_free_pool_after_reuse(f0, s0, pos as int, new_slot);
                assert(self.free_list() == f0.remove(pos as int));
                assert(self@ == s0.update(chosen as int, new_slot));
                lemma_tree_shaped_after_reuse(s0, chosen, parent, new_slot);
                lemma_live_count_update(s0, chosen as int, new_slot, s0.len() as int);
                assert(live_count(self@, self@.len() as int)
                    == live_count(s0, s0.len() as int) + 1);
            }
        }
        self.len = self.len + 1;
        chosen
    }

    /// Detach the node at `index` together with its entire subtree.  The
    /// node must be live and must not be the root.  Each removed slot keeps
    /// its value but loses its parent link, and its index returns to the
    /// free pool for reuse; the store itself never shrinks.
    pub fn remove(&mut self, index: usize)
        requires
            old(self).wf(),
            index != 0,
            live(old(self)@, index as int),
        ensures
            final(self).wf(),
            final(self)@.len() == old(self)@.len(),
            forall|j: int|
                0 <= j < old(self)@.len() ==> final(self)@[j].value == old(self)@[j].value,
            forall|j: int|
                0 <= j < old(self)@.len() ==> (#[trigger] final(self)@[j]).parent == (
                    if j == index as int || reaches(old(self)@, index as int, j) {
                        None::<usize>
                    } else {
                        old(self)@[j].parent
                    }
                ),
            !live(final(self)@, index as int),
            live_count(final(self)@, final(self)@.len() as int) == live_count(
                old(self)@,
                old(self)@.len() as int,
            ) - 1 - desc_upto(old(self)@, index as int, old(self)@.len() as int).len(),
    {
        let ghost s0 = self@;
        let ghost a = index as int;
        let store_len = self.inner.len();
        let ghost n = store_len as int;
        let doomed = self.descendants_of(index);
        proof {
            assert(n == s0.len());
            lemma_desc_upto_props(s0, a, n);
        }
        self.tombstone_one(index);
        proof {
            assert(self@ =~= s0.update(a, (Slot { value: s0[a].value, parent: None })));
            assert(self.len as int == live_count(s0, n) - 1);
        }
        let mut k: usize = 0;
        let dlen = doomed.len();
        while k < dlen
            invariant
                dlen as int == doomed@.len(),
                k <= dlen,
                doomed@ == desc_upto(s0, a, n),
                forall|d: usize| #[trigger] doomed@.contains(d) <==> reaches(s0, a, d as int),
                forall|t: int, u: int|
                    0 <= t < u < doomed@.len() ==> doomed@[t] < doomed@[u],
                index != 0,
                a == index as int,
                tree_shaped(s0),
                live(s0, a),
                n == s0.len(),
                n <= usize::MAX,
                self@.len() == s0.len(),
                ordered(self@),
                self.free_ok(),
                self.len_ok(),
                self.len as int == live_count(s0, n) - 1 - k,
                forall|j: int|
                    0 <= j < n ==> (#[trigger] self@[j]).value == s0[j].value,
                forall|j: int|
                    0 <= j < n ==> (#[trigger] self@[j]).parent == (
                        if j == a || doomed@.subrange(0, k as int).contains(j as usize) {
                            None::<usize>
                        } else {
                            s0[j].parent
                        }
                    ),
            decreases dlen - k,
        {
            let d = doomed[k];
            proof {
                assert(doomed@[k as int] == d);
                assert(doomed@.contains(d));
                assert(reaches(s0, a, d as int));
                lemma_reaches_above(s0, a, d as int);
                // not yet processed: everything in the prefix sits below `d`
                assert(!doomed@.subrange(0, k as int).contains(d)) by {
                    if doomed@.subrange(0, k as int).contains(d) {
                        let t = choose|t: int|
                            0 <= t < k && doomed@.subrange(0, k as int)[t] == d;
                        assert(doomed@[t] == d);
                        assert(doomed@[t] < doomed@[k as int]);
                    }
                }
                assert(self@[d as int].parent == s0[d as int].parent);
                assert(live(self@, d as int));
            }
            self.tombstone_one(d);
            proof {
                assert(doomed@.subrange(0, k as int + 1)
                    =~= doomed@.subrange(0, k as int).push(d));
                lemma_push_contains(doomed@.subrange(0, k as int), d);
            }
            k = k + 1;
        }
        proof {
            assert(doomed@.subrange(0, dlen as int) =~= doomed@);
            // the processed set is exactly the removal set, so every kept
            // parent link still points at a live slot
            assert forall|i: int|
                0 <= i < n implies match (#[trigger] self@[i]).parent {
                Some(p) => live(self@, p as int),
                None => true,
            } by {
                match self@[i].parent {
                    Some(p) => {
                        assert(s0[i].parent == Some(p));
                        assert(i != 0);
                        assert(live(s0, p as int));
                        if p as int == a || reaches(s0, a, p as int) {
                            lemma_reaches_step(s0, a, i);
                            assert(doomed@.contains(i as usize));
                            assert(false);
                        }
                        if p != 0 {
                            assert(self@[p as int].parent == s0[p as int].parent);
                        }
                    },
                    None => {},
                }
            }
            assert(self@[0].parent == s0[0].parent);
            assert(tree_shaped(self@));
        }
    }

    /// Clear the parent link of one live slot, return its index to the free
    /// pool, and drop the cached length by one.  The slot keeps its value.
    fn tombstone_one(&mut self, d: usize)
        requires
            ordered(old(self)@),
            old(self).free_ok(),
            old(self).len_ok(),
            0 < d < old(self)@.len(),
            old(self)@[d as int].parent is Some,
        ensures
            final(self)@ == old(self)@.update(
                d as int,
                (Slot { value: old(self)@[d as int].value, parent: None }),
            ),
            ordered(final(self)@),
            final(self).free_ok(),
            final(self).len_ok(),
            final(self).len as int == old(self).len as int - 1,
    {
        let ghost s_pre = self@;
        let ghost f_pre = self.free_list();
        let ghost tomb = Slot { value: s_pre[d as int].value, parent: None };
        proof {
            assert(live(s_pre, d as int));
            // a live index is never in the pool
            assert(!f_pre.contains(d)) by {
                if f_pre.contains(d) {
                    let w = choose|w: int| 0 <= w < f_pre.len() && f_pre[w] == d;
                    assert(is_free(s_pre, f_pre[w] as int));
                }
            }
        }
        let slot = &mut self.inner[d];
        slot.parent = None;
        insert_sorted(&mut self.free, d);
        proof {
            assert(self@ == s_pre.update(d as int, tomb));
            lemma_ordered_after_tombstone(s_pre, d as int, tomb);
            lemma_free_pool_after_tombstone(f_pre, self.free_list(), s_pre, d, tomb);
            lemma_live_count_update(s_pre, d as int, tomb, s_pre.len() as int);
            lemma_live_count_at_live(s_pre, d as int, s_pre.len() as int);
        }
        self.len = self.len - 1;
    }

    /// Every strict descendant of `index`, in ascending index order.  A
    /// single forward scan from `index + 1` suffices: the ordering
    /// invariant puts every descendant's parent before it.
    pub fn descendants_of(&self, index: usize) -> (r: Vec<usize>)
        requires
            self.wf(),
        ensures
            r@ == desc_upto(self@, index as int, self@.len() as int),
            forall|d: usize| #[trigger] r@.contains(d) <==> reaches(self@, index as int, d as int),
    {
        let ghost s = self@;
        let ghost a = index as int;
        let n = self.inner.len();
        let mut r: Vec<usize> = Vec::new();
        let mut j: usize = if index >= n { n } else { index + 1 };
        proof {
            lemma_desc_upto_empty(s, a, j as int);
            assert forall|d: usize| !((d as int) < j && reaches(s, a, d as int)) by {
                if reaches(s, a, d as int) {
                    lemma_reaches_above(s, a, d as int);
                }
            }
        }
        while j < n
            invariant
                self.wf(),
                s == self@,
                a == index as int,
                n == self@.len(),
                j <= n,
                r@ == desc_upto(s, a, j as int),
                forall|d: usize|
                    #[trigger] r@.contains(d) <==> ((d as int) < j && reaches(s, a, d as int)),
            decreases n - j,
        {
            let hit = match self.inner[j].parent {
                Some(p) => p == index || contains_index(&r, p),
                None => false,
            };
            proof {
                assert(hit == reaches(s, a, j as int));
                if hit {
                    lemma_push_contains(r@, j);
                }
            }
            if hit {
                r.push(j);
            }
            j = j + 1;
        }
        proof {
            assert forall|d: usize| #[trigger] r@.contains(d)
                implies reaches(s, a, d as int) by {}
            assert forall|d: usize| reaches(s, a, d as int)
                implies #[trigger] r@.contains(d) by {
                assert((d as int) < n);
            }
        }
        r
    }

    /// Every direct child of `index`, in ascending index order.
    pub fn direct_children_of(&self, index: usize) -> (r: Vec<usize>)
        requires
            self.wf(),
        ensures
            r@ == children_upto(self@, index as int, self@.len() as int),
            forall|d: usize|
                #[trigger] r@.contains(d) <==> is_child_of(self@, index as int, d as int),
    {
        let ghost s = self@;
        let ghost a = index as int;
        let n = self.inner.len();
        let mut r: Vec<usize> = Vec::new();
        let mut j: usize = if index >= n { n } else { index + 1 };
        proof {
            lemma_children_upto_empty(s, a, j as int);
            assert forall|d: usize| !((d as int) < j && is_child_of(s, a, d as int)) by {
                if is_child_of(s, a, d as int) {
                    assert((s[d as int].parent->0 as int) < d as int);
                }
            }
        }
        while j < n
            invariant
                self.wf(),
                s == self@,
                a == index as int,
                n == self@.len(),
                j <= n,
                r@ == children_upto(s, a, j as int),
                forall|d: usize|
                    #[trigger] r@.contains(d)
                        <==> ((d as int) < j && is_child_of(s, a, d as int)),
            decreases n - j,
        {
            let hit = match self.inner[j].parent {
                Some(p) => p == index,
                None => false,
            };
            proof {
                assert(hit == is_child_of(s, a, j as int));
                if hit {
                    lemma_push_contains(r@, j);
                }
            }
            if hit {
                r.push(j);
            }
            j = j + 1;
        }
        proof {
            assert forall|d: usize| reaches(s, a, d as int) || is_child_of(s, a, d as int)
                implies (d as int) < n by {}
        }
        r
    }

    /// References to the values of all live nodes, in ascending index
    /// order, root first.  Tombstoned slots are skipped.
    pub fn iter(&self) -> (r: Vec<&T>)
        requires
            self.wf(),
        ensures
            r@.len() == live_count(self@, self@.len() as int),
            forall|i: int|
                0 <= i < r@.len() ==> *r@[i] == live_values_upto(
                    self@,
                    self@.len() as int,
                )[i],
    {
        let n = self.inner.len();
        let mut r: Vec<&T> = Vec::new();
        let mut j: usize = 0;
        while j < n
            invariant
                self.wf(),
                n == self@.len(),
                j <= n,
                r@.len() == live_count(self@, j as int),
                forall|i: int| 0 <= i < r@.len() ==> *r@[i] == live_values_upto(self@, j as int)[i],
            decreases n - j,
        {
            proof {
                lemma_live_values_len(self@, j as int);
                lemma_live_values_len(self@, j as int + 1);
                lemma_live_count_bounds(self@, j as int);
            }
            if self.is_valid_idx(j) {
                let val = &self.inner[j].value;
                r.push(val);
            }
            j = j + 1;
        }
        proof {
            lemma_live_values_len(self@, n as int);
        }
        r
    }

    /// The capacity of the underlying store, in slots: how many it can hold
    /// before reallocating.  A storage quantity only; it never affects the
    /// logical contents, and all that is promised of it is what holds of
    /// every vector: it is at least the store's length.
    pub fn capacity(&self) -> (c: usize)
        ensures
            c >= self@.len(),
    {
        vec_capacity(&self.inner)
    }

    /// Shrink the store's capacity toward `min_capacity`.  The logical
    /// state — slots, free pool and length — is untouched.
    pub fn shrink_to(&mut self, min_capacity: usize)
        requires
            old(self).wf(),
        ensures
            final(self).wf(),
            final(self)@ == old(self)@,
    {
        vec_shrink_to(&mut self.inner, min_capacity);
    }

    /// Shrink the store's capacity as far as possible.  The logical state
    /// is untouched.
    pub fn shrink_to_fit(&mut self)
        requires
            old(self).wf(),
        ensures
            final(self).wf(),
            final(self)@ == old(self)@,
    {
        vec_shrink_to_fit(&mut self.inner);
    }

    /// Reserve room for at least `additional` more slots, reporting
    /// allocation failure as a recoverable result instead of aborting.  The
    /// logical state is untouched either way.
    pub fn try_reserve(&mut self, additional: usize) -> (r: Result<(), TryReserveError>)
        requires
            old(self).wf(),
        ensures
            final(self).wf(),
            final(self)@ == old(self)@,
    {
        self.inner.try_reserve(additional)
    }

    /// Reserve room for exactly `additional` more slots, reporting
    /// allocation failure as a recoverable result instead of aborting.  The
    /// logical state is untouched either way.
    pub fn try_reserve_exact(&mut self, additional: usize) -> (r: Result<(), TryReserveError>)
        requires
            old(self).wf(),
        ensures
            final(self).wf(),
            final(self)@ == old(self)@,
    {
        vec_try_reserve_exact(&mut self.inner, additional)
    }

    /// Direct read access to a node's slot: its value and parent link.
    /// Only the bounds are checked here; reading a tombstoned slot is the
    /// caller's responsibility.
    pub fn get(&self, index: usize) -> (r: &Slot<T>)
        requires
            (index as int) < self@.len(),
        ensures
            *r == self@[index as int],
    {
        &self.inner[index]
    }

    /// Overwrite the payload value at `index` in place.  The tree's shape —
    /// every parent link, the free pool and the length — is untouched, so
    /// this is the one mutation the container allows on a node between its
    /// insertion and its removal.
    pub fn set_value(&mut self, index: usize, value: T)
        requires
            old(self).wf(),
            (index as int) < old(self)@.len(),
        ensures
            final(self).wf(),
            final(self)@ == old(self)@.update(
                index as int,
                (Slot { value, parent: old(self)@[index as int].parent }),
            ),
    {
        let ghost s0 = self@;
        let ghost f0 = self.free_list();
        let slot = &mut self.inner[index];
        slot.value = value;
        proof {
            assert(self@ == s0.update(
                index as int,
                (Slot { value, parent: s0[index as int].parent }),
            ));
            assert forall|j: int| 0 <= j < s0.len()
                implies self@[j].parent == (#[trigger] s0[j]).parent by {}
            lemma_parents_decide_shape(s0, self@, f0);
        }
    }
}

/// Relies on `Vec::capacity`: the allocated capacity is a storage quantity
/// outside the model, but std documents that it is never below the length.
#[verifier::external_body]
fn vec_capacity<T>(v: &Vec<T>) -> (c: usize)
    ensures
        c >= v@.len(),
{
    v.capacity()
}

/// Relies on `Vec::shrink_to`: its documentation promises that only the
/// capacity drops; the elements stay intact.
#[verifier::external_body]
fn vec_shrink_to<T>(v: &mut Vec<T>, min_capacity: usize)
    ensures
        final(v)@ == old(v)@,
{
    v.shrink_to(min_capacity)
}

/// Relies on `Vec::shrink_to_fit`: its documentation promises that only the
/// capacity drops; the elements stay intact.
#[verifier::external_body]
fn vec_shrink_to_fit<T>(v: &mut Vec<T>)
    ensures
        final(v)@ == old(v)@,
{
    v.shrink_to_fit()
}

/// Relies on `Vec::try_reserve_exact`: it only grows the capacity, reports
/// failure to allocate as an error value, and leaves the elements intact
/// either way.
#[verifier::external_body]
fn vec_try_reserve_exact<T>(v: &mut Vec<T>, additional: usize) -> (r: Result<
    (),
    TryReserveError,
>)
    ensures
        final(v)@ == old(v)@,
{
    v.try_reserve_exact(additional)
}

/// Place `x` into the strictly ascending index vector `v`, keeping the
/// order.  `x` must not already be a member.
fn insert_sorted(v: &mut Vec<usize>, x: usize)
    requires
        forall|k: int, l: int| 0 <= k < l < old(v)@.len() ==> old(v)@[k] < old(v)@[l],
        !old(v)@.contains(x),
    ensures
        final(v)@.len() == old(v)@.len() + 1,
        forall|k: int, l: int| 0 <= k < l < final(v)@.len() ==> final(v)@[k] < final(v)@[l],
        forall|y: usize| #[trigger] final(v)@.contains(y) <==> (old(v)@.contains(y) || y == x),
{
    let ghost f0 = v@;
    let n = v.len();
    let mut p: usize = 0;
    while p < n && v[p] < x
        invariant
            v@ == f0,
            n as int == f0.len(),
            p <= n,
            forall|j: int| 0 <= j < p ==> f0[j] < x,
        decreases n - p,
    {
        p = p + 1;
    }
    proof {
        // everything from `p` on exceeds `x`: the scan stopped at a larger
        // element, and `x` itself is absent
        assert forall|j: int| p <= j < f0.len() implies f0[j] > x by {
            assert(f0[p as int] >= x);
            if j > p {
                assert(f0[p as int] < f0[j]);
            }
            if f0[j] == x {
                assert(f0.contains(x));
            }
        }
    }
    v.insert(p, x);
    proof {
        let f1 = v@;
        assert(f1 == f0.insert(p as int, x));
        assert forall|j: int| 0 <= j < f1.len() implies f1[j] == (if j < p {
            f0[j]
        } else if j == p {
            x
        } else {
            f0[j - 1]
        }) by {}
        assert forall|y: usize| #[trigger] f1.contains(y) implies (f0.contains(y) || y == x) by {
            let w = choose|w: int| 0 <= w < f1.len() && f1[w] == y;
            if w < p {
                assert(f0[w] == y);
            } else if w > p {
                assert(f0[w - 1] == y);
            }
        }
        assert forall|y: usize| (f0.contains(y) || y == x) implies #[trigger] f1.contains(y) by {
            if f0.contains(y) {
                let w = choose|w: int| 0 <= w < f0.len() && f0[w] == y;
                if w < p {
                    assert(f1[w] == y);
                } else {
                    assert(f1[w + 1] == y);
                }
            } else {
                assert(f1[p as int] == y);
            }
        }
    }
}

/// Linear membership scan over an index vector.
fn contains_index(v: &Vec<usize>, x: usize) -> (b: bool)
    ensures
        b == v@.contains(x),
{
    let mut k: usize = 0;
    while k < v.len()
        invariant
            k <= v@.len(),
            forall|j: int| 0 <= j < k ==> v@[j] != x,
        decreases v@.len() - k,
    {
        if v[k] == x {
            proof {
                assert(v@[k as int] == x);
            }
            return true;
        }
        k = k + 1;
    }
    proof {
        if v@.contains(x) {
            let j = choose|j: int| 0 <= j < v@.len() && v@[j] == x;
            assert(false);
        }
    }
    false
}

} // verus!
