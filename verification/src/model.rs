//! The mathematical model of the tree: a sequence of slots, together with
//! the spec functions that say which indices are live, which are free, and
//! which indices descend from which.

use vstd::prelude::*;

verus! {

/// One storage cell: a payload value and an optional parent link.
/// `parent == None` marks the root slot (index 0) or a vacated slot;
/// `parent == Some(p)` marks a live non-root node whose parent sits at `p`.
#[derive(Clone, Debug)]
pub struct Slot<T> {
    pub value: T,
    pub parent: Option<usize>,
}

/// An index denotes a live node iff it is the root or its slot carries a
/// parent link.
pub open spec fn live<T>(s: Seq<Slot<T>>, i: int) -> bool {
    i == 0 || (0 < i < s.len() && s[i].parent is Some)
}

/// An index is available to insertion: either the one trailing index just
/// past the store, or a vacated non-root slot inside it.
pub open spec fn is_free<T>(s: Seq<Slot<T>>, i: int) -> bool {
    i == s.len() || (1 <= i < s.len() && s[i].parent is None)
}

/// The ordering invariant: every parent link points strictly downwards.
pub open spec fn ordered<T>(s: Seq<Slot<T>>) -> bool {
    forall|i: int| 0 <= i < s.len() ==> match (#[trigger] s[i]).parent {
        Some(p) => (p as int) < i,
        None => true,
    }
}

/// Every parent link of a live node points at a live node.
pub open spec fn parents_live<T>(s: Seq<Slot<T>>) -> bool {
    forall|i: int| 0 <= i < s.len() ==> match (#[trigger] s[i]).parent {
        Some(p) => live(s, p as int),
        None => true,
    }
}

/// The slot store holds a tree: a root without a parent at index 0, and
/// downward-pointing parent links into live slots everywhere else.
pub open spec fn tree_shaped<T>(s: Seq<Slot<T>>) -> bool {
    &&& s.len() >= 1
    &&& s[0].parent is None
    &&& ordered(s)
    &&& parents_live(s)
}

/// The number of live indices below `n`.
pub open spec fn live_count<T>(s: Seq<Slot<T>>, n: int) -> int
    decreases n,
{
    if n <= 0 {
        0
    } else {
        live_count(s, n - 1) + if live(s, n - 1) { 1int } else { 0int }
    }
}

/// `d` is a strict descendant of `a`: following parent links upward from `d`
/// arrives at `a`.  The recursion descends because links point downwards.
pub open spec fn reaches<T>(s: Seq<Slot<T>>, a: int, d: int) -> bool
    decreases d,
{
    0 < d < s.len() && match s[d].parent {
        Some(p) => (p as int) == a || ((p as int) < d && reaches(s, a, p as int)),
        None => false,
    }
}

/// `d` is a direct child of `a`.
pub open spec fn is_child_of<T>(s: Seq<Slot<T>>, a: int, d: int) -> bool {
    0 < d < s.len() && 0 <= a && s[d].parent == Some(a as usize)
}

/// The ascending sequence of strict descendants of `a` among indices below `n`.
pub open spec fn desc_upto<T>(s: Seq<Slot<T>>, a: int, n: int) -> Seq<usize>
    decreases n,
{
    if n <= 0 {
        Seq::empty()
    } else if reaches(s, a, n - 1) {
        desc_upto(s, a, n - 1).push((n - 1) as usize)
    } else {
        desc_upto(s, a, n - 1)
    }
}

/// The ascending sequence of direct children of `a` among indices below `n`.
pub open spec fn children_upto<T>(s: Seq<Slot<T>>, a: int, n: int) -> Seq<usize>
    decreases n,
{
    if n <= 0 {
        Seq::empty()
    } else if is_child_of(s, a, n - 1) {
        children_upto(s, a, n - 1).push((n - 1) as usize)
    } else {
        children_upto(s, a, n - 1)
    }
}

/// The values of the live slots below `n`, in ascending index order.
pub open spec fn live_values_upto<T>(s: Seq<Slot<T>>, n: int) -> Seq<T>
    decreases n,
{
    if n <= 0 {
        Seq::empty()
    } else if live(s, n - 1) {
        live_values_upto(s, n - 1).push(s[n - 1].value)
    } else {
        live_values_upto(s, n - 1)
    }
}

/// A count over `n` slots lands between 0 and `n`.
pub proof fn lemma_live_count_bounds<T>(s: Seq<Slot<T>>, n: int)
    requires
        0 <= n,
    ensures
        0 <= live_count(s, n) <= n,
    decreases n,
{
    if n > 0 {
        lemma_live_count_bounds(s, n - 1);
    }
}

/// The root is live, so any scan that covers it counts at least one node.
pub proof fn lemma_live_count_root<T>(s: Seq<Slot<T>>, n: int)
    requires
        1 <= n,
    ensures
        1 <= live_count(s, n),
    decreases n,
{
    if n > 1 {
        lemma_live_count_root(s, n - 1);
    } else {
        assert(live(s, 0));
        assert(live_count(s, 0) == 0);
    }
}

/// A live index within range keeps the count positive.
pub proof fn lemma_live_count_at_live<T>(s: Seq<Slot<T>>, d: int, n: int)
    requires
        live(s, d),
        0 <= d < n,
    ensures
        live_count(s, n) >= 1,
    decreases n,
{
    if d < n - 1 {
        lemma_live_count_at_live(s, d, n - 1);
    } else {
        lemma_live_count_bounds(s, n - 1);
    }
}

/// Liveness below `n` decides the count below `n`.
pub proof fn lemma_live_count_congruence<T>(s1: Seq<Slot<T>>, s2: Seq<Slot<T>>, n: int)
    requires
        forall|j: int| 0 <= j < n ==> live(s1, j) == live(s2, j),
    ensures
        live_count(s1, n) == live_count(s2, n),
    decreases n,
{
    if n > 0 {
        lemma_live_count_congruence(s1, s2, n - 1);
    }
}

/// Overwriting one non-root slot changes the count by the change at that slot.
pub proof fn lemma_live_count_update<T>(s: Seq<Slot<T>>, i: int, x: Slot<T>, n: int)
    requires
        0 < i < s.len(),
        0 <= n <= s.len(),
    ensures
        live_count(s.update(i, x), n) == live_count(s, n) + if i < n {
            (if x.parent is Some { 1int } else { 0int })
                - (if s[i].parent is Some { 1int } else { 0int })
        } else {
            0int
        },
    decreases n,
{
    if n > 0 {
        lemma_live_count_update(s, i, x, n - 1);
    }
}

/// Appending a slot leaves every count over the old range unchanged.
pub proof fn lemma_live_count_push<T>(s: Seq<Slot<T>>, x: Slot<T>, n: int)
    requires
        0 <= n <= s.len(),
    ensures
        live_count(s.push(x), n) == live_count(s, n),
    decreases n,
{
    if n > 0 {
        lemma_live_count_push(s, x, n - 1);
    }
}

/// Under the ordering invariant a strict descendant sits strictly above its
/// ancestor, so in particular no node descends from itself.
pub proof fn lemma_reaches_above<T>(s: Seq<Slot<T>>, a: int, d: int)
    requires
        ordered(s),
        reaches(s, a, d),
    ensures
        0 <= a < d,
    decreases d,
{
    match s[d].parent {
        Some(p) => {
            if (p as int) != a {
                lemma_reaches_above(s, a, p as int);
            }
        },
        None => {},
    }
}

/// A node whose parent is `a`, or whose parent descends from `a`, descends
/// from `a`.
pub proof fn lemma_reaches_step<T>(s: Seq<Slot<T>>, a: int, d: int)
    requires
        ordered(s),
        0 < d < s.len(),
        s[d].parent is Some,
        (s[d].parent->0 as int) == a || reaches(s, a, s[d].parent->0 as int),
    ensures
        reaches(s, a, d),
{
}

/// What `desc_upto` collects: exactly the strict descendants below `n`,
/// in strictly ascending order.
pub proof fn lemma_desc_upto_props<T>(s: Seq<Slot<T>>, a: int, n: int)
    requires
        0 <= n <= usize::MAX + 1,
    ensures
        forall|d: usize| #[trigger] desc_upto(s, a, n).contains(d)
            <==> ((d as int) < n && reaches(s, a, d as int)),
        forall|k: int, l: int| 0 <= k < l < desc_upto(s, a, n).len()
            ==> desc_upto(s, a, n)[k] < desc_upto(s, a, n)[l],
        forall|k: int| 0 <= k < desc_upto(s, a, n).len()
            ==> (#[trigger] desc_upto(s, a, n)[k] as int) < n,
    decreases n,
{
    if n > 0 {
        lemma_desc_upto_props(s, a, n - 1);
        let pre = desc_upto(s, a, n - 1);
        let cur = desc_upto(s, a, n);
        if reaches(s, a, n - 1) {
            assert(cur == pre.push((n - 1) as usize));
            assert forall|d: usize| #[trigger] cur.contains(d)
                implies ((d as int) < n && reaches(s, a, d as int)) by {
                let k = choose|k: int| 0 <= k < cur.len() && cur[k] == d;
                if k < pre.len() {
                    assert(pre[k] == d);
                    assert(pre.contains(d));
                } else {
                    assert(d == (n - 1) as usize);
                    assert(d as int == n - 1);
                }
            }
            assert forall|d: usize| (d as int) < n && reaches(s, a, d as int)
                implies #[trigger] cur.contains(d) by {
                if (d as int) < n - 1 {
                    assert(pre.contains(d));
                    let k = choose|k: int| 0 <= k < pre.len() && pre[k] == d;
                    assert(cur[k] == d);
                } else {
                    assert(d as int == n - 1);
                    assert(cur[pre.len() as int] == d);
                }
            }
            assert forall|k: int, l: int| 0 <= k < l < cur.len()
                implies cur[k] < cur[l] by {
                if l < pre.len() {
                    assert(pre[k] < pre[l]);
                } else {
                    assert(cur[l] == (n - 1) as usize);
                    assert((pre[k] as int) < n - 1);
                }
            }
            assert forall|k: int| 0 <= k < cur.len()
                implies (#[trigger] cur[k] as int) < n by {
                if k < pre.len() {
                    assert((pre[k] as int) < n - 1);
                }
            }
        } else {
            assert(cur == pre);
            assert forall|d: usize| #[trigger] cur.contains(d)
                implies ((d as int) < n && reaches(s, a, d as int)) by {
                assert(pre.contains(d));
            }
            assert forall|d: usize| (d as int) < n && reaches(s, a, d as int)
                implies #[trigger] cur.contains(d) by {
                assert((d as int) < n - 1);
                assert(pre.contains(d));
            }
        }
    }
}

/// What `children_upto` collects: exactly the direct children below `n`,
/// in strictly ascending order.
pub proof fn lemma_children_upto_props<T>(s: Seq<Slot<T>>, a: int, n: int)
    requires
        0 <= n <= usize::MAX + 1,
    ensures
        forall|d: usize| #[trigger] children_upto(s, a, n).contains(d)
            <==> ((d as int) < n && is_child_of(s, a, d as int)),
        forall|k: int, l: int| 0 <= k < l < children_upto(s, a, n).len()
            ==> children_upto(s, a, n)[k] < children_upto(s, a, n)[l],
        forall|k: int| 0 <= k < children_upto(s, a, n).len()
            ==> (#[trigger] children_upto(s, a, n)[k] as int) < n,
    decreases n,
{
    if n > 0 {
        lemma_children_upto_props(s, a, n - 1);
        let pre = children_upto(s, a, n - 1);
        let cur = children_upto(s, a, n);
        if is_child_of(s, a, n - 1) {
            assert(cur == pre.push((n - 1) as usize));
            assert forall|d: usize| #[trigger] cur.contains(d)
                implies ((d as int) < n && is_child_of(s, a, d as int)) by {
                let k = choose|k: int| 0 <= k < cur.len() && cur[k] == d;
                if k < pre.len() {
                    assert(pre[k] == d);
                    assert(pre.contains(d));
                } else {
                    assert(d == (n - 1) as usize);
                    assert(d as int == n - 1);
                }
            }
            assert forall|d: usize| (d as int) < n && is_child_of(s, a, d as int)
                implies #[trigger] cur.contains(d) by {
                if (d as int) < n - 1 {
                    assert(pre.contains(d));
                    let k = choose|k: int| 0 <= k < pre.len() && pre[k] == d;
                    assert(cur[k] == d);
                } else {
                    assert(d as int == n - 1);
                    assert(cur[pre.len() as int] == d);
                }
            }
            assert forall|k: int, l: int| 0 <= k < l < cur.len()
                implies cur[k] < cur[l] by {
                if l < pre.len() {
                    assert(pre[k] < pre[l]);
                } else {
                    assert(cur[l] == (n - 1) as usize);
                    assert((pre[k] as int) < n - 1);
                }
            }
            assert forall|k: int| 0 <= k < cur.len()
                implies (#[trigger] cur[k] as int) < n by {
                if k < pre.len() {
                    assert((pre[k] as int) < n - 1);
                }
            }
        } else {
            assert(cur == pre);
            assert forall|d: usize| #[trigger] cur.contains(d)
                implies ((d as int) < n && is_child_of(s, a, d as int)) by {
                assert(pre.contains(d));
            }
            assert forall|d: usize| (d as int) < n && is_child_of(s, a, d as int)
                implies #[trigger] cur.contains(d) by {
                assert((d as int) < n - 1);
                assert(pre.contains(d));
            }
        }
    }
}

/// The free pool `fs` matches the store `s`: it is strictly ascending, every
/// member is free in `s`, and every free index of `s` — the trailing index
/// included — is a member.
pub open spec fn free_pool_ok<T>(fs: Seq<usize>, s: Seq<Slot<T>>) -> bool {
    &&& forall|k: int, l: int| 0 <= k < l < fs.len() ==> fs[k] < fs[l]
    &&& forall|k: int| 0 <= k < fs.len() ==> is_free(s, (#[trigger] fs[k]) as int)
    &&& forall|i: int| 0 <= i <= s.len() && #[trigger] is_free(s, i) ==> fs.contains(i as usize)
}

/// Appending a freshly parented slot at the trailing free index keeps the
/// pool exact, once that index — necessarily the pool's last — is swapped
/// for the new trailing index.
pub proof fn lemma_free_pool_after_append<T>(fs: Seq<usize>, s: Seq<Slot<T>>, pos: int, x: Slot<T>)
    requires
        free_pool_ok(fs, s),
        0 <= pos < fs.len(),
        fs[pos] as int == s.len(),
        s.len() < usize::MAX,
        x.parent is Some,
    ensures
        pos == fs.len() - 1,
        free_pool_ok(fs.remove(pos).push((s.len() + 1) as usize), s.push(x)),
{
    let s1 = s.push(x);
    let chosen = s.len() as int;
    if pos < fs.len() - 1 {
        assert(fs[pos] < fs[pos + 1]);
        assert(is_free(s, fs[pos + 1] as int));
        assert(false);
    }
    assert(pos == fs.len() - 1);
    let f1 = fs.remove(pos).push((s.len() + 1) as usize);
    assert forall|j: int| 0 <= j < pos implies f1[j] == fs[j] by {
        assert(fs.remove(pos)[j] == fs[j]);
    }
    assert(f1.len() == fs.len());
    assert(f1[pos] as int == s.len() + 1);
    assert forall|k: int, l: int| 0 <= k < l < f1.len() implies f1[k] < f1[l] by {
        if l < pos {
            assert(f1[k] == fs[k] && f1[l] == fs[l]);
        } else {
            assert(l == pos);
            assert(f1[k] == fs[k]);
            assert(fs[k] < fs[pos]);
        }
    }
    assert forall|k: int| 0 <= k < f1.len() implies is_free(s1, (#[trigger] f1[k]) as int) by {
        if k < pos {
            assert(f1[k] == fs[k]);
            assert(is_free(s, fs[k] as int));
            assert(fs[k] < fs[pos]);
            assert(s1[fs[k] as int] == s[fs[k] as int]);
        } else {
            assert(f1[k] as int == s1.len());
        }
    }
    assert forall|i: int| 0 <= i <= s1.len() && #[trigger] is_free(s1, i)
        implies f1.contains(i as usize) by {
        if i == s1.len() {
            assert(f1[pos] == i as usize);
        } else {
            assert(i != chosen);
            assert(i < chosen);
            assert(s1[i] == s[i]);
            assert(is_free(s, i));
            assert(fs.contains(i as usize));
            let w = choose|w: int| 0 <= w < fs.len() && fs[w] == i as usize;
            assert(w != pos);
            assert(f1[w] == fs[w]);
        }
    }
}

/// Overwriting a vacated slot in place keeps the pool exact, once that
/// slot's index leaves the pool.
pub proof fn lemma_free_pool_after_reuse<T>(fs: Seq<usize>, s: Seq<Slot<T>>, pos: int, x: Slot<T>)
    requires
        free_pool_ok(fs, s),
        0 <= pos < fs.len(),
        (fs[pos] as int) < s.len(),
        s.len() <= usize::MAX,
        x.parent is Some,
    ensures
        free_pool_ok(fs.remove(pos), s.update(fs[pos] as int, x)),
{
    let chosen = fs[pos] as int;
    let s1 = s.update(chosen, x);
    let f1 = fs.remove(pos);
    assert(is_free(s, chosen));
    assert(1 <= chosen);
    assert forall|j: int| 0 <= j < f1.len()
        implies f1[j] == (if j < pos { fs[j] } else { fs[j + 1] }) by {}
    assert forall|k: int, l: int| 0 <= k < l < f1.len() implies f1[k] < f1[l] by {
        let wk: int = if k < pos { k } else { k + 1 };
        let wl: int = if l < pos { l } else { l + 1 };
        assert(fs[wk] < fs[wl]);
    }
    assert forall|k: int| 0 <= k < f1.len() implies is_free(s1, (#[trigger] f1[k]) as int) by {
        let w: int = if k < pos { k } else { k + 1 };
        assert(f1[k] == fs[w]);
        assert(is_free(s, fs[w] as int));
        if w < pos {
            assert(fs[w] < fs[pos]);
        } else {
            assert(fs[pos] < fs[w]);
        }
        assert(fs[w] as int != chosen);
        if (fs[w] as int) < s.len() {
            assert(s1[fs[w] as int] == s[fs[w] as int]);
        }
    }
    assert forall|i: int| 0 <= i <= s1.len() && #[trigger] is_free(s1, i)
        implies f1.contains(i as usize) by {
        assert(i != chosen);
        if i < s1.len() {
            assert(s1[i] == s[i]);
        }
        assert(is_free(s, i));
        assert(fs.contains(i as usize));
        let w = choose|w: int| 0 <= w < fs.len() && fs[w] == i as usize;
        assert(w != pos) by {
            if w == pos {
                assert(i as usize == fs[pos]);
                assert(i == chosen);
            }
        }
        if w < pos {
            assert(f1[w] == fs[w]);
        } else {
            assert(f1[w - 1] == fs[w]);
        }
    }
}

/// Tombstoning one live non-root slot keeps the pool exact, provided the
/// new pool holds exactly the old members plus that slot's index and stays
/// sorted.
pub proof fn lemma_free_pool_after_tombstone<T>(
    fs: Seq<usize>,
    f2: Seq<usize>,
    s: Seq<Slot<T>>,
    d: usize,
    x: Slot<T>,
)
    requires
        free_pool_ok(fs, s),
        live(s, d as int),
        0 < d < s.len(),
        x.parent is None,
        forall|k: int, l: int| 0 <= k < l < f2.len() ==> f2[k] < f2[l],
        forall|y: usize| #[trigger] f2.contains(y) <==> (fs.contains(y) || y == d),
    ensures
        free_pool_ok(f2, s.update(d as int, x)),
{
    let s1 = s.update(d as int, x);
    assert forall|k: int| 0 <= k < f2.len() implies is_free(s1, (#[trigger] f2[k]) as int) by {
        let y = f2[k];
        assert(f2.contains(y));
        if y == d {
            assert(s1[d as int].parent is None);
        } else {
            assert(fs.contains(y));
            let w = choose|w: int| 0 <= w < fs.len() && fs[w] == y;
            assert(is_free(s, fs[w] as int));
            if (y as int) < s.len() {
                assert(s1[y as int] == s[y as int]);
            }
        }
    }
    assert forall|i: int| 0 <= i <= s1.len() && #[trigger] is_free(s1, i)
        implies f2.contains(i as usize) by {
        if i == d as int {
            assert(f2.contains(d));
        } else {
            if i < s1.len() {
                assert(s1[i] == s[i]);
            }
            assert(is_free(s, i));
            assert(fs.contains(i as usize));
        }
    }
}

/// Attaching a freshly parented slot at the trailing index keeps the store
/// tree shaped.
pub proof fn lemma_tree_shaped_after_append<T>(s: Seq<Slot<T>>, parent: usize, x: Slot<T>)
    requires
        tree_shaped(s),
        live(s, parent as int),
        (parent as int) < s.len(),
        x.parent == Some(parent),
    ensures
        tree_shaped(s.push(x)),
{
    let s1 = s.push(x);
    assert(s1[0] == s[0]);
    assert forall|i: int| 0 <= i < s1.len() implies match (#[trigger] s1[i]).parent {
        Some(p) => (p as int) < i,
        None => true,
    } by {
        if i < s.len() {
            assert(s1[i] == s[i]);
        }
    }
    assert forall|i: int| 0 <= i < s1.len() implies match (#[trigger] s1[i]).parent {
        Some(p) => live(s1, p as int),
        None => true,
    } by {
        if i < s.len() {
            assert(s1[i] == s[i]);
            match s[i].parent {
                Some(p) => {
                    assert(live(s, p as int));
                    if p != 0 {
                        assert(s1[p as int] == s[p as int]);
                    }
                },
                None => {},
            }
        } else {
            if parent != 0 {
                assert(s1[parent as int] == s[parent as int]);
            }
        }
    }
}

/// Overwriting a vacated slot with a freshly parented one keeps the store
/// tree shaped, provided the parent sits strictly below the slot.
pub proof fn lemma_tree_shaped_after_reuse<T>(
    s: Seq<Slot<T>>,
    chosen: usize,
    parent: usize,
    x: Slot<T>,
)
    requires
        tree_shaped(s),
        live(s, parent as int),
        (parent as int) < chosen < s.len(),
        s[chosen as int].parent is None,
        x.parent == Some(parent),
    ensures
        tree_shaped(s.update(chosen as int, x)),
{
    let s1 = s.update(chosen as int, x);
    assert(s1[0] == s[0]);
    assert forall|i: int| 0 <= i < s1.len() implies match (#[trigger] s1[i]).parent {
        Some(p) => (p as int) < i,
        None => true,
    } by {
        if i != chosen as int {
            assert(s1[i] == s[i]);
        }
    }
    assert forall|i: int| 0 <= i < s1.len() implies match (#[trigger] s1[i]).parent {
        Some(p) => live(s1, p as int),
        None => true,
    } by {
        if i != chosen as int {
            assert(s1[i] == s[i]);
            match s[i].parent {
                Some(p) => {
                    assert(live(s, p as int));
                    assert(p as int != chosen as int);
                    if p != 0 {
                        assert(s1[p as int] == s[p as int]);
                    }
                },
                None => {},
            }
        } else {
            assert(s1[parent as int] == s[parent as int]);
        }
    }
}

/// Tombstoning a non-root slot keeps every parent link pointing downwards.
pub proof fn lemma_ordered_after_tombstone<T>(s: Seq<Slot<T>>, d: int, x: Slot<T>)
    requires
        ordered(s),
        0 < d < s.len(),
        x.parent is None,
    ensures
        ordered(s.update(d, x)),
{
    let s1 = s.update(d, x);
    assert forall|i: int| 0 <= i < s1.len() implies match (#[trigger] s1[i]).parent {
        Some(p) => (p as int) < i,
        None => true,
    } by {
        if i != d {
            assert(s1[i] == s[i]);
        }
    }
}

/// Everything the invariants say is decided by the parent links alone, so a
/// store whose parent links agree pointwise with a well-formed one is well
/// formed itself — payload values never matter to the shape.
pub proof fn lemma_parents_decide_shape<T>(s: Seq<Slot<T>>, s2: Seq<Slot<T>>, fs: Seq<usize>)
    requires
        s2.len() == s.len(),
        forall|j: int| 0 <= j < s.len() ==> s2[j].parent == (#[trigger] s[j]).parent,
        tree_shaped(s),
        free_pool_ok(fs, s),
    ensures
        tree_shaped(s2),
        free_pool_ok(fs, s2),
        live_count(s2, s2.len() as int) == live_count(s, s.len() as int),
{
    assert forall|i: int| live(s2, i) == live(s, i) by {
        if 0 < i < s.len() {
            assert(s2[i].parent == s[i].parent);
        }
    }
    assert forall|i: int| is_free(s2, i) == is_free(s, i) by {
        if 1 <= i < s.len() {
            assert(s2[i].parent == s[i].parent);
        }
    }
    assert forall|i: int| 0 <= i < s2.len() implies match (#[trigger] s2[i]).parent {
        Some(p) => (p as int) < i,
        None => true,
    } by {
        assert(s2[i].parent == s[i].parent);
    }
    assert forall|i: int| 0 <= i < s2.len() implies match (#[trigger] s2[i]).parent {
        Some(p) => live(s2, p as int),
        None => true,
    } by {
        assert(s2[i].parent == s[i].parent);
        match s[i].parent {
            Some(p) => {
                assert(live(s, p as int));
            },
            None => {},
        }
    }
    assert(s2[0].parent == s[0].parent);
    lemma_live_count_congruence(s, s2, s.len() as int);
    assert forall|k: int| 0 <= k < fs.len() implies is_free(s2, (#[trigger] fs[k]) as int) by {
        assert(is_free(s, fs[k] as int));
    }
    assert forall|i: int| 0 <= i <= s2.len() && #[trigger] is_free(s2, i)
        implies fs.contains(i as usize) by {
        assert(is_free(s, i));
    }
}

/// Membership in a pushed sequence of indices.
pub proof fn lemma_push_contains(q: Seq<usize>, x: usize)
    ensures
        forall|d: usize| #[trigger] q.push(x).contains(d) <==> (q.contains(d) || d == x),
{
    assert forall|d: usize| #[trigger] q.push(x).contains(d)
        implies (q.contains(d) || d == x) by {
        let k = choose|k: int| 0 <= k < q.push(x).len() && q.push(x)[k] == d;
        if k < q.len() {
            assert(q[k] == d);
        }
    }
    assert forall|d: usize| (q.contains(d) || d == x)
        implies #[trigger] q.push(x).contains(d) by {
        if q.contains(d) {
            let k = choose|k: int| 0 <= k < q.len() && q[k] == d;
            assert(q.push(x)[k] == d);
        } else {
            assert(q.push(x)[q.len() as int] == d);
        }
    }
}

/// Below the start of the scan — or for a start outside the store — there
/// are no descendants to collect.
pub proof fn lemma_desc_upto_empty<T>(s: Seq<Slot<T>>, a: int, m: int)
    requires
        ordered(s),
        0 <= m,
        m <= a + 1 || a >= s.len(),
    ensures
        desc_upto(s, a, m) == Seq::<usize>::empty(),
    decreases m,
{
    if m > 0 {
        lemma_desc_upto_empty(s, a, m - 1);
        if reaches(s, a, m - 1) {
            lemma_reaches_above(s, a, m - 1);
            assert(false);
        }
    }
}

/// The same, for direct children.
pub proof fn lemma_children_upto_empty<T>(s: Seq<Slot<T>>, a: int, m: int)
    requires
        ordered(s),
        0 <= m,
        a <= usize::MAX,
        m <= a + 1 || a >= s.len(),
    ensures
        children_upto(s, a, m) == Seq::<usize>::empty(),
    decreases m,
{
    if m > 0 {
        lemma_children_upto_empty(s, a, m - 1);
        if is_child_of(s, a, m - 1) {
            assert(s[m - 1].parent is Some);
            assert((s[m - 1].parent->0 as int) < m - 1);
            assert(false);
        }
    }
}

/// The value sequence of the live slots is as long as the live count.
pub proof fn lemma_live_values_len<T>(s: Seq<Slot<T>>, n: int)
    requires
        0 <= n,
    ensures
        live_values_upto(s, n).len() == live_count(s, n),
    decreases n,
{
    if n > 0 {
        lemma_live_values_len(s, n - 1);
    }
}

} // verus!
