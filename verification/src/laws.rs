//! Properties of the container stated on their own, each proved from the
//! model alone.

use vstd::prelude::*;

use crate::model::{
    children_upto, desc_upto, is_child_of, is_free, lemma_children_upto_props,
    lemma_desc_upto_props, lemma_live_count_root, live, live_count, reaches, tree_shaped, Slot,
};
use crate::tree::Heap;

verus! {

/// Every well-formed tree holds at least its root: a full scan of the store
/// counts one or more live indices.
pub proof fn lemma_at_least_root<T>(s: Seq<Slot<T>>)
    requires
        tree_shaped(s),
    ensures
        live_count(s, s.len() as int) >= 1,
{
    lemma_live_count_root(s, s.len() as int);
}

/// The root index is always live, and it never descends from anything, so
/// no descendant or child query ever reports it.
pub proof fn lemma_root_never_reported<T>(s: Seq<Slot<T>>, a: int)
    requires
        tree_shaped(s),
        s.len() <= usize::MAX,
    ensures
        live(s, 0),
        forall|d: int| reaches(s, a, d) ==> d != 0,
        forall|d: int| is_child_of(s, a, d) ==> d != 0,
        !desc_upto(s, a, s.len() as int).contains(0usize),
        !children_upto(s, a, s.len() as int).contains(0usize),
{
    lemma_desc_upto_props(s, a, s.len() as int);
    lemma_children_upto_props(s, a, s.len() as int);
}

/// The ordering invariant: every live non-root node's parent index is
/// strictly less than its own.
pub proof fn lemma_parent_below_child<T>(s: Seq<Slot<T>>, i: int)
    requires
        tree_shaped(s),
        0 <= i < s.len(),
        s[i].parent is Some,
    ensures
        (s[i].parent->0 as int) < i,
{
}

/// A live index is never free.  Insertion hands out only indices free in
/// the tree it saw, so a handle that is live — one just returned among
/// them — is never returned by a later insertion until it is removed.
pub proof fn lemma_live_index_not_free<T>(s: Seq<Slot<T>>, i: int)
    requires
        tree_shaped(s),
        live(s, i),
    ensures
        !is_free(s, i),
{
}

/// Every direct child is a strict descendant, index by index and query
/// result by query result.
pub proof fn lemma_children_are_descendants<T>(s: Seq<Slot<T>>, a: int)
    requires
        tree_shaped(s),
        0 <= a <= usize::MAX,
        s.len() <= usize::MAX,
    ensures
        forall|d: int| is_child_of(s, a, d) ==> reaches(s, a, d),
        forall|d: usize|
            children_upto(s, a, s.len() as int).contains(d) ==> desc_upto(
                s,
                a,
                s.len() as int,
            ).contains(d),
{
    lemma_desc_upto_props(s, a, s.len() as int);
    lemma_children_upto_props(s, a, s.len() as int);
}

/// The queries are pure.  They take the tree by shared reference, so they
/// cannot mutate it, and their contracts pin each result to a function of
/// the store alone — so two calls with no mutation in between, or on any
/// two trees with equal stores, return identical vectors.
pub proof fn lemma_queries_deterministic<T>(h1: &Heap<T>, h2: &Heap<T>, index: usize)
    requires
        h1@ == h2@,
    ensures
        desc_upto(h1@, index as int, h1@.len() as int) == desc_upto(
            h2@,
            index as int,
            h2@.len() as int,
        ),
        children_upto(h1@, index as int, h1@.len() as int) == children_upto(
            h2@,
            index as int,
            h2@.len() as int,
        ),
{
}

} // verus!
