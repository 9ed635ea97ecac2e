//! Mathematical model of the tree: well-formedness of the arena links,
//! subtree membership and key sets, ordering invariants, and the lemmas
//! relating them.

use vstd::prelude::*;

use crate::bst::BstNode;

verus! {

/// The links of node `i` are sound: children live strictly after `i` in the
/// arena and carry a back-link to `i`, a parent lives strictly before `i`,
/// and the two child slots never alias. Children strictly after parents is
/// the arena's acyclicity argument: every downward walk increases the index
/// and every upward walk decreases it.
pub open spec fn wf_at(t: Seq<BstNode>, i: int) -> bool {
    &&& (t[i].left matches Some(l) ==> i < l as int && (l as int) < t.len()
            && t[l as int].parent == Some(i as usize))
    &&& (t[i].right matches Some(r) ==> i < r as int && (r as int) < t.len()
            && t[r as int].parent == Some(i as usize))
    &&& (t[i].parent matches Some(p) ==> (p as int) < i)
    &&& !(t[i].left is Some && t[i].left == t[i].right)
}

/// Every node of the arena has sound links, and the arena is small enough
/// that every index fits in a machine word.
pub open spec fn wf(t: Seq<BstNode>) -> bool {
    &&& t.len() <= usize::MAX as nat
    &&& forall|i: int| 0 <= i < t.len() ==> wf_at(t, i)
}

/// `i` lies in the subtree rooted at `r` (following owning child links only).
pub open spec fn in_subtree(t: Seq<BstNode>, r: int, i: int) -> bool
    decreases t.len() - r
        when wf(t) && 0 <= r < t.len()
        via in_subtree_dec
{
    ||| i == r
    ||| (t[r].left matches Some(l) && in_subtree(t, l as int, i))
    ||| (t[r].right matches Some(rr) && in_subtree(t, rr as int, i))
}

#[via_fn]
proof fn in_subtree_dec(t: Seq<BstNode>, r: int, i: int) {
    if wf(t) && 0 <= r < t.len() {
        assert(wf_at(t, r));
    }
}

/// The set of keys held by the subtree rooted at `r`; keyless (sentinel)
/// nodes contribute nothing.
pub open spec fn subtree_keys(t: Seq<BstNode>, r: int) -> Set<int>
    decreases t.len() - r
        when wf(t) && 0 <= r < t.len()
        via subtree_keys_dec
{
    let own = match t[r].key {
        Some(k) => Set::<int>::empty().insert(k as int),
        None => Set::<int>::empty(),
    };
    let lks = match t[r].left {
        Some(l) => subtree_keys(t, l as int),
        None => Set::<int>::empty(),
    };
    let rks = match t[r].right {
        Some(rr) => subtree_keys(t, rr as int),
        None => Set::<int>::empty(),
    };
    own.union(lks).union(rks)
}

#[via_fn]
proof fn subtree_keys_dec(t: Seq<BstNode>, r: int) {
    if wf(t) && 0 <= r < t.len() {
        assert(wf_at(t, r));
    }
}

/// Every key of `s` is strictly below `k`.
pub open spec fn keys_below(s: Set<int>, k: int) -> bool {
    forall|x: int| s.contains(x) ==> x < k
}

/// Every key of `s` is at least `k`.
pub open spec fn keys_at_least(s: Set<int>, k: int) -> bool {
    forall|x: int| s.contains(x) ==> x >= k
}

/// Every key of `s` is strictly above `k`.
pub open spec fn keys_above(s: Set<int>, k: int) -> bool {
    forall|x: int| s.contains(x) ==> x > k
}

/// The subtree at `r` satisfies the tree-order invariant: every node holds a
/// key, keys in a left subtree are below their parent's key, and keys in a
/// right subtree are at least the parent's key (ties go right).
pub open spec fn bst_ordered(t: Seq<BstNode>, r: int) -> bool
    decreases t.len() - r
        when wf(t) && 0 <= r < t.len()
        via bst_ordered_dec
{
    &&& t[r].key is Some
    &&& (t[r].left matches Some(l) ==> bst_ordered(t, l as int)
            && keys_below(subtree_keys(t, l as int), t[r].key->Some_0 as int))
    &&& (t[r].right matches Some(rr) ==> bst_ordered(t, rr as int)
            && keys_at_least(subtree_keys(t, rr as int), t[r].key->Some_0 as int))
}

#[via_fn]
proof fn bst_ordered_dec(t: Seq<BstNode>, r: int) {
    if wf(t) && 0 <= r < t.len() {
        assert(wf_at(t, r));
    }
}

/// The strict tree-order invariant: as `bst_ordered`, but keys in a right
/// subtree are strictly above their parent's key, so all keys are distinct.
/// Successor computation identifies nodes by key and is only meaningful
/// under this stronger invariant.
pub open spec fn bst_strict(t: Seq<BstNode>, r: int) -> bool
    decreases t.len() - r
        when wf(t) && 0 <= r < t.len()
        via bst_strict_dec
{
    &&& t[r].key is Some
    &&& (t[r].left matches Some(l) ==> bst_strict(t, l as int)
            && keys_below(subtree_keys(t, l as int), t[r].key->Some_0 as int))
    &&& (t[r].right matches Some(rr) ==> bst_strict(t, rr as int)
            && keys_above(subtree_keys(t, rr as int), t[r].key->Some_0 as int))
}

#[via_fn]
proof fn bst_strict_dec(t: Seq<BstNode>, r: int) {
    if wf(t) && 0 <= r < t.len() {
        assert(wf_at(t, r));
    }
}

/// The root reached from `i` by following parent back-links.
pub open spec fn root_of(t: Seq<BstNode>, i: int) -> int
    decreases i
        when wf(t) && 0 <= i < t.len()
        via root_of_dec
{
    match t[i].parent {
        None => i,
        Some(p) => root_of(t, p as int),
    }
}

#[via_fn]
proof fn root_of_dec(t: Seq<BstNode>, i: int) {
    if wf(t) && 0 <= i < t.len() {
        assert(wf_at(t, i));
    }
}

/// Every ancestor of `i` still owns the child it is reached from: the parent
/// back-link of each node on the path is matched by a child link. A node
/// whose old parent replaced it by a fresh child is no longer attached.
pub open spec fn attached(t: Seq<BstNode>, i: int) -> bool
    decreases i
        when wf(t) && 0 <= i < t.len()
        via attached_dec
{
    match t[i].parent {
        None => true,
        Some(p) => (t[p as int].left == Some(i as usize) || t[p as int].right == Some(i as usize))
            && attached(t, p as int),
    }
}

#[via_fn]
proof fn attached_dec(t: Seq<BstNode>, i: int) {
    if wf(t) && 0 <= i < t.len() {
        assert(wf_at(t, i));
    }
}

/// The node reached from `r` by descending left links as far as possible.
pub open spec fn leftmost(t: Seq<BstNode>, r: int) -> int
    decreases t.len() - r
        when wf(t) && 0 <= r < t.len()
        via leftmost_dec
{
    match t[r].left {
        Some(l) => leftmost(t, l as int),
        None => r,
    }
}

#[via_fn]
proof fn leftmost_dec(t: Seq<BstNode>, r: int) {
    if wf(t) && 0 <= r < t.len() {
        assert(wf_at(t, r));
    }
}

/// The node reached from `r` by descending right links as far as possible.
pub open spec fn rightmost(t: Seq<BstNode>, r: int) -> int
    decreases t.len() - r
        when wf(t) && 0 <= r < t.len()
        via rightmost_dec
{
    match t[r].right {
        Some(rr) => rightmost(t, rr as int),
        None => r,
    }
}

#[via_fn]
proof fn rightmost_dec(t: Seq<BstNode>, r: int) {
    if wf(t) && 0 <= r < t.len() {
        assert(wf_at(t, r));
    }
}

/// Search for `v` from `r` descends to node `i` and falls off at its empty
/// left child slot: the one place where an insertion of `v` respecting the
/// strict tree-order invariant belongs.
pub open spec fn left_slot_of(t: Seq<BstNode>, r: int, i: int, v: int) -> bool
    decreases t.len() - r
        when wf(t) && 0 <= r < t.len()
        via left_slot_of_dec
{
    &&& t[r].key is Some
    &&& if r == i {
            v < t[r].key->Some_0 as int && t[r].left is None
        } else if v < t[r].key->Some_0 as int {
            t[r].left matches Some(l) && left_slot_of(t, l as int, i, v)
        } else if v > t[r].key->Some_0 as int {
            t[r].right matches Some(rr) && left_slot_of(t, rr as int, i, v)
        } else {
            false
        }
}

#[via_fn]
proof fn left_slot_of_dec(t: Seq<BstNode>, r: int, i: int, v: int) {
    if wf(t) && 0 <= r < t.len() {
        assert(wf_at(t, r));
    }
}

/// As `left_slot_of`, for the empty right child slot of node `i`.
pub open spec fn right_slot_of(t: Seq<BstNode>, r: int, i: int, v: int) -> bool
    decreases t.len() - r
        when wf(t) && 0 <= r < t.len()
        via right_slot_of_dec
{
    &&& t[r].key is Some
    &&& if r == i {
            v > t[r].key->Some_0 as int && t[r].right is None
        } else if v < t[r].key->Some_0 as int {
            t[r].left matches Some(l) && right_slot_of(t, l as int, i, v)
        } else if v > t[r].key->Some_0 as int {
            t[r].right matches Some(rr) && right_slot_of(t, rr as int, i, v)
        } else {
            false
        }
}

#[via_fn]
proof fn right_slot_of_dec(t: Seq<BstNode>, r: int, i: int, v: int) {
    if wf(t) && 0 <= r < t.len() {
        assert(wf_at(t, r));
    }
}

/// Subtree membership stays within the arena, and never before the root:
/// children live strictly after their parent.
pub proof fn lemma_in_subtree_bounds(t: Seq<BstNode>, r: int, i: int)
    requires
        wf(t),
        0 <= r < t.len(),
        in_subtree(t, r, i),
    ensures
        r <= i < t.len(),
    decreases t.len() - r,
{
    assert(wf_at(t, r));
    let l: usize = t[r].left->Some_0;
    if i == r {
    } else if t[r].left is Some && in_subtree(t, l as int, i) {
        lemma_in_subtree_bounds(t, l as int, i);
    } else {
        lemma_in_subtree_bounds(t, t[r].right->Some_0 as int, i);
    }
}

/// Subtree membership is transitive.
pub proof fn lemma_in_subtree_trans(t: Seq<BstNode>, a: int, b: int, c: int)
    requires
        wf(t),
        0 <= a < t.len(),
        in_subtree(t, a, b),
        in_subtree(t, b, c),
    ensures
        in_subtree(t, a, c),
    decreases t.len() - a,
{
    assert(wf_at(t, a));
    let l: usize = t[a].left->Some_0;
    if b == a {
    } else if t[a].left is Some && in_subtree(t, l as int, b) {
        lemma_in_subtree_trans(t, l as int, b, c);
    } else {
        lemma_in_subtree_trans(t, t[a].right->Some_0 as int, b, c);
    }
}

/// The key set of an inner subtree is contained in the key set of the
/// enclosing one.
pub proof fn lemma_subtree_keys_subset(t: Seq<BstNode>, r: int, i: int)
    requires
        wf(t),
        0 <= r < t.len(),
        in_subtree(t, r, i),
    ensures
        forall|k: int| subtree_keys(t, i).contains(k) ==> subtree_keys(t, r).contains(k),
    decreases t.len() - r,
{
    assert(wf_at(t, r));
    let l: usize = t[r].left->Some_0;
    if i == r {
    } else if t[r].left is Some && in_subtree(t, l as int, i) {
        lemma_subtree_keys_subset(t, l as int, i);
    } else {
        lemma_subtree_keys_subset(t, t[r].right->Some_0 as int, i);
    }
}

/// A keyed node contributes its key to the key set of every subtree that
/// contains it.
pub proof fn lemma_key_in_subtree_keys(t: Seq<BstNode>, r: int, i: int)
    requires
        wf(t),
        0 <= r < t.len(),
        in_subtree(t, r, i),
        t[i].key is Some,
    ensures
        subtree_keys(t, r).contains(t[i].key->Some_0 as int),
{
    lemma_in_subtree_bounds(t, r, i);
    assert(subtree_keys(t, i).contains(t[i].key->Some_0 as int));
    lemma_subtree_keys_subset(t, r, i);
}

/// The strict tree-order invariant is inherited by every inner subtree.
pub proof fn lemma_strict_in_subtree(t: Seq<BstNode>, r: int, i: int)
    requires
        wf(t),
        0 <= r < t.len(),
        bst_strict(t, r),
        in_subtree(t, r, i),
    ensures
        bst_strict(t, i),
    decreases t.len() - r,
{
    assert(wf_at(t, r));
    let l: usize = t[r].left->Some_0;
    if i == r {
    } else if t[r].left is Some && in_subtree(t, l as int, i) {
        lemma_strict_in_subtree(t, l as int, i);
    } else {
        lemma_strict_in_subtree(t, t[r].right->Some_0 as int, i);
    }
}

/// The strict invariant implies the plain one.
pub proof fn lemma_strict_implies_ordered(t: Seq<BstNode>, r: int)
    requires
        wf(t),
        0 <= r < t.len(),
        bst_strict(t, r),
    ensures
        bst_ordered(t, r),
    decreases t.len() - r,
{
    assert(wf_at(t, r));
    if t[r].left is Some {
        lemma_strict_implies_ordered(t, t[r].left->Some_0 as int);
    }
    if t[r].right is Some {
        lemma_strict_implies_ordered(t, t[r].right->Some_0 as int);
    }
}

/// Every node of a subtree resolves to the same root as the subtree's own
/// top node: child links agree with the parent back-links they are paired
/// with.
pub proof fn lemma_root_of_in_subtree(t: Seq<BstNode>, r: int, i: int)
    requires
        wf(t),
        0 <= r < t.len(),
        in_subtree(t, r, i),
    ensures
        root_of(t, i) == root_of(t, r),
    decreases t.len() - r,
{
    assert(wf_at(t, r));
    let l: usize = t[r].left->Some_0;
    if i == r {
    } else if t[r].left is Some && in_subtree(t, l as int, i) {
        lemma_in_subtree_bounds(t, l as int, i);
        lemma_root_of_in_subtree(t, l as int, i);
        assert(root_of(t, l as int) == root_of(t, r));
    } else {
        let rr: usize = t[r].right->Some_0;
        lemma_in_subtree_bounds(t, rr as int, i);
        lemma_root_of_in_subtree(t, rr as int, i);
        assert(root_of(t, rr as int) == root_of(t, r));
    }
}

/// Any two nodes of the same tree resolve to the same root, so repeated
/// root discoveries from anywhere in a tree agree (on the node itself, and
/// in particular on its key).
pub proof fn lemma_get_root_consistent(t: Seq<BstNode>, r: int, i: int, j: int)
    requires
        wf(t),
        0 <= r < t.len(),
        in_subtree(t, r, i),
        in_subtree(t, r, j),
    ensures
        root_of(t, i) == root_of(t, j),
{
    lemma_root_of_in_subtree(t, r, i);
    lemma_root_of_in_subtree(t, r, j);
}

/// An attached node lies in the subtree of the root its parent chain
/// resolves to, and that root has no parent.
pub proof fn lemma_attached_in_subtree(t: Seq<BstNode>, i: int)
    requires
        wf(t),
        0 <= i < t.len(),
        attached(t, i),
    ensures
        0 <= root_of(t, i) < t.len(),
        in_subtree(t, root_of(t, i), i),
        t[root_of(t, i)].parent is None,
    decreases i,
{
    assert(wf_at(t, i));
    match t[i].parent {
        None => {
            assert(in_subtree(t, i, i));
        }
        Some(p) => {
            let pi: int = p as int;
            lemma_attached_in_subtree(t, pi);
            assert(wf_at(t, pi));
            assert(in_subtree(t, i, i));
            assert(t[pi].left == Some(i as usize) || t[pi].right == Some(i as usize));
            if t[pi].left == Some(i as usize) {
                assert(t[pi].left matches Some(l) && in_subtree(t, l as int, i));
            } else {
                assert(t[pi].right matches Some(rr) && in_subtree(t, rr as int, i));
            }
            assert(in_subtree(t, pi, i));
            lemma_in_subtree_trans(t, root_of(t, pi), pi, i);
        }
    }
}

/// Under the tree-order invariant the leftmost node of a subtree holds its
/// smallest key.
pub proof fn lemma_leftmost_min(t: Seq<BstNode>, r: int)
    requires
        wf(t),
        0 <= r < t.len(),
        bst_ordered(t, r),
    ensures
        r <= leftmost(t, r) < t.len(),
        in_subtree(t, r, leftmost(t, r)),
        t[leftmost(t, r)].left is None,
        t[leftmost(t, r)].key is Some,
        subtree_keys(t, r).contains(t[leftmost(t, r)].key->Some_0 as int),
        forall|k: int| subtree_keys(t, r).contains(k)
            ==> t[leftmost(t, r)].key->Some_0 as int <= k,
    decreases t.len() - r,
{
    assert(wf_at(t, r));
    let kr: int = t[r].key->Some_0 as int;
    match t[r].left {
        None => {
            assert(in_subtree(t, r, r));
            assert(subtree_keys(t, r).contains(kr));
            assert forall|k: int| subtree_keys(t, r).contains(k) implies kr <= k by {
                if t[r].right is Some && subtree_keys(t, t[r].right->Some_0 as int).contains(k) {
                    assert(keys_at_least(subtree_keys(t, t[r].right->Some_0 as int), kr));
                }
            }
        }
        Some(l) => {
            let li: int = l as int;
            lemma_leftmost_min(t, li);
            let lm: int = leftmost(t, li);
            let m: int = t[lm].key->Some_0 as int;
            assert(in_subtree(t, r, lm));
            assert(subtree_keys(t, li).contains(m));
            assert(subtree_keys(t, r).contains(m));
            assert forall|k: int| subtree_keys(t, r).contains(k) implies m <= k by {
                assert(keys_below(subtree_keys(t, li), kr));
                assert(m < kr);
                if k == kr {
                } else if subtree_keys(t, li).contains(k) {
                } else {
                    let rr: usize = t[r].right->Some_0;
                    assert(t[r].right is Some && subtree_keys(t, rr as int).contains(k));
                    assert(keys_at_least(subtree_keys(t, rr as int), kr));
                }
            }
        }
    }
}

/// Under the tree-order invariant the rightmost node of a subtree holds its
/// largest key.
pub proof fn lemma_rightmost_max(t: Seq<BstNode>, r: int)
    requires
        wf(t),
        0 <= r < t.len(),
        bst_ordered(t, r),
    ensures
        r <= rightmost(t, r) < t.len(),
        in_subtree(t, r, rightmost(t, r)),
        t[rightmost(t, r)].right is None,
        t[rightmost(t, r)].key is Some,
        subtree_keys(t, r).contains(t[rightmost(t, r)].key->Some_0 as int),
        forall|k: int| subtree_keys(t, r).contains(k)
            ==> k <= t[rightmost(t, r)].key->Some_0 as int,
    decreases t.len() - r,
{
    assert(wf_at(t, r));
    let kr: int = t[r].key->Some_0 as int;
    match t[r].right {
        None => {
            assert(in_subtree(t, r, r));
            assert(subtree_keys(t, r).contains(kr));
            assert forall|k: int| subtree_keys(t, r).contains(k) implies k <= kr by {
                if t[r].left is Some && subtree_keys(t, t[r].left->Some_0 as int).contains(k) {
                    assert(keys_below(subtree_keys(t, t[r].left->Some_0 as int), kr));
                }
            }
        }
        Some(rr) => {
            let ri: int = rr as int;
            lemma_rightmost_max(t, ri);
            let rm: int = rightmost(t, ri);
            let m: int = t[rm].key->Some_0 as int;
            assert(in_subtree(t, r, rm));
            assert(subtree_keys(t, ri).contains(m));
            assert(subtree_keys(t, r).contains(m));
            assert forall|k: int| subtree_keys(t, r).contains(k) implies k <= m by {
                assert(keys_at_least(subtree_keys(t, ri), kr));
                assert(kr <= m);
                if k == kr {
                } else if subtree_keys(t, ri).contains(k) {
                } else {
                    let l: usize = t[r].left->Some_0;
                    assert(t[r].left is Some && subtree_keys(t, l as int).contains(k));
                    assert(keys_below(subtree_keys(t, l as int), kr));
                }
            }
        }
    }
}

/// Walking the ancestor chain of an attached node `q` preserves the bound
/// "`kp` is at most every key above `xk`": the keys a parent adds are either
/// below `xk` (when `q` hangs to its right) or at least `kp` (when `q` hangs
/// to its left, since `kp` already lies in `q`'s subtree). Hence a bound that
/// holds of `q`'s subtree holds of `q`'s whole tree.
pub proof fn lemma_least_above_chain(t: Seq<BstNode>, q: int, xk: int, kp: int)
    requires
        wf(t),
        0 <= q < t.len(),
        attached(t, q),
        bst_strict(t, root_of(t, q)),
        subtree_keys(t, q).contains(xk),
        subtree_keys(t, q).contains(kp),
        forall|k: int| subtree_keys(t, q).contains(k) && k > xk ==> k >= kp,
    ensures
        forall|k: int| subtree_keys(t, root_of(t, q)).contains(k) && k > xk ==> k >= kp,
    decreases q,
{
    assert(wf_at(t, q));
    match t[q].parent {
        None => {
            assert(root_of(t, q) == q);
        }
        Some(p) => {
            let pi: int = p as int;
            assert(wf_at(t, pi));
            lemma_attached_in_subtree(t, pi);
            assert(root_of(t, q) == root_of(t, pi));
            lemma_strict_in_subtree(t, root_of(t, pi), pi);
            let kpi: int = t[pi].key->Some_0 as int;
            assert(subtree_keys(t, pi).contains(kpi));
            if t[pi].left == Some(q as usize) {
                assert(keys_below(subtree_keys(t, q), kpi));
                assert(kpi > xk);
                assert(kpi > kp);
                assert forall|k: int| subtree_keys(t, pi).contains(k) && k > xk implies k >= kp by {
                    if k == kpi {
                    } else if subtree_keys(t, q).contains(k) {
                    } else {
                        let rr: usize = t[pi].right->Some_0;
                        assert(t[pi].right is Some && subtree_keys(t, rr as int).contains(k));
                        assert(keys_above(subtree_keys(t, rr as int), kpi));
                    }
                }
            } else {
                assert(t[pi].right == Some(q as usize));
                assert(keys_above(subtree_keys(t, q), kpi));
                assert(kpi < xk);
                assert forall|k: int| subtree_keys(t, pi).contains(k) && k > xk implies k >= kp by {
                    if k == kpi {
                    } else if subtree_keys(t, q).contains(k) {
                    } else {
                        let l: usize = t[pi].left->Some_0;
                        assert(t[pi].left is Some && subtree_keys(t, l as int).contains(k));
                        assert(keys_below(subtree_keys(t, l as int), kpi));
                    }
                }
            }
            assert(subtree_keys(t, pi).contains(xk));
            assert(subtree_keys(t, pi).contains(kp));
            lemma_least_above_chain(t, pi, xk, kp);
        }
    }
}

/// A subtree that does not contain node `i` is untouched when only node `i`
/// changes and fresh nodes appear at the end of the arena.
pub proof fn lemma_frame_subtree(t: Seq<BstNode>, t2: Seq<BstNode>, j: int, i: int)
    requires
        wf(t),
        wf(t2),
        0 <= j < t.len(),
        t.len() <= t2.len(),
        !in_subtree(t, j, i),
        forall|m: int| 0 <= m < t.len() && m != i ==> t2[m] == t[m],
    ensures
        subtree_keys(t2, j) == subtree_keys(t, j),
        bst_strict(t, j) ==> bst_strict(t2, j),
    decreases t.len() - j,
{
    assert(wf_at(t, j));
    assert(in_subtree(t, j, j));
    assert(t2[j] == t[j]);
    if t[j].left is Some {
        let l: usize = t[j].left->Some_0;
        assert(in_subtree(t, l as int, l as int));
        assert(!in_subtree(t, l as int, i));
        lemma_frame_subtree(t, t2, l as int, i);
    }
    if t[j].right is Some {
        let rr: usize = t[j].right->Some_0;
        assert(in_subtree(t, rr as int, rr as int));
        assert(!in_subtree(t, rr as int, i));
        lemma_frame_subtree(t, t2, rr as int, i);
    }
    assert(subtree_keys(t2, j) =~= subtree_keys(t, j));
}

/// What `left_slot_of` guarantees of the slot it points at.
pub proof fn lemma_left_slot_props(t: Seq<BstNode>, r: int, i: int, v: int)
    requires
        wf(t),
        0 <= r < t.len(),
        left_slot_of(t, r, i, v),
    ensures
        0 <= i < t.len(),
        in_subtree(t, r, i),
        t[i].left is None,
        t[i].key is Some,
        v < t[i].key->Some_0 as int,
    decreases t.len() - r,
{
    assert(wf_at(t, r));
    let k: int = t[r].key->Some_0 as int;
    if r == i {
        assert(in_subtree(t, r, r));
    } else if v < k {
        let l: usize = t[r].left->Some_0;
        lemma_left_slot_props(t, l as int, i, v);
        assert(in_subtree(t, r, i));
    } else {
        let rr: usize = t[r].right->Some_0;
        lemma_left_slot_props(t, rr as int, i, v);
        assert(in_subtree(t, r, i));
    }
}

/// What `right_slot_of` guarantees of the slot it points at.
pub proof fn lemma_right_slot_props(t: Seq<BstNode>, r: int, i: int, v: int)
    requires
        wf(t),
        0 <= r < t.len(),
        right_slot_of(t, r, i, v),
    ensures
        0 <= i < t.len(),
        in_subtree(t, r, i),
        t[i].right is None,
        t[i].key is Some,
        v > t[i].key->Some_0 as int,
    decreases t.len() - r,
{
    assert(wf_at(t, r));
    let k: int = t[r].key->Some_0 as int;
    if r == i {
        assert(in_subtree(t, r, r));
    } else if v < k {
        let l: usize = t[r].left->Some_0;
        lemma_right_slot_props(t, l as int, i, v);
        assert(in_subtree(t, r, i));
    } else {
        let rr: usize = t[r].right->Some_0;
        lemma_right_slot_props(t, rr as int, i, v);
        assert(in_subtree(t, r, i));
    }
}

/// Attaching a fresh left child with key `value` at the slot that search
/// directs `value` to preserves the strict tree-order invariant of the
/// enclosing tree and adds exactly `value` to its key set. `t2` is the
/// arena as `add_left_child` leaves it.
pub proof fn lemma_add_left_child_ordered(
    t: Seq<BstNode>,
    t2: Seq<BstNode>,
    r: int,
    i: int,
    value: i32,
)
    requires
        wf(t),
        wf(t2),
        0 <= r < t.len(),
        t2.len() == t.len() + 1,
        t2[t.len() as int]
            == (BstNode { key: Some(value), parent: Some(i as usize), left: None, right: None }),
        t2[i].left == Some((t.len() as usize)),
        t2[i].right == t[i].right,
        t2[i].key == t[i].key,
        t2[i].parent == t[i].parent,
        forall|m: int| 0 <= m < t.len() && m != i ==> t2[m] == t[m],
        bst_strict(t, r),
        left_slot_of(t, r, i, value as int),
    ensures
        bst_strict(t2, r),
        subtree_keys(t2, r) == subtree_keys(t, r).insert(value as int),
    decreases t.len() - r,
{
    assert(wf_at(t, r));
    assert(wf_at(t2, r));
    lemma_left_slot_props(t, r, i, value as int);
    let v: int = value as int;
    let k: int = t[r].key->Some_0 as int;
    let n: int = t.len() as int;
    assert(subtree_keys(t2, n) =~= Set::<int>::empty().insert(v));
    assert(bst_strict(t2, n));
    if r == i {
        if t[r].right is Some {
            let rr: usize = t[r].right->Some_0;
            if in_subtree(t, rr as int, r) {
                lemma_in_subtree_bounds(t, rr as int, r);
            }
            lemma_frame_subtree(t, t2, rr as int, i);
        }
        assert(bst_strict(t2, r));
        assert(subtree_keys(t2, r) =~= subtree_keys(t, r).insert(v));
    } else if v < k {
        let l: usize = t[r].left->Some_0;
        lemma_left_slot_props(t, l as int, i, v);
        lemma_add_left_child_ordered(t, t2, l as int, i, value);
        if t[r].right is Some {
            let rr: usize = t[r].right->Some_0;
            if in_subtree(t, rr as int, i) {
                lemma_key_in_subtree_keys(t, rr as int, i);
                lemma_key_in_subtree_keys(t, l as int, i);
                assert(keys_below(subtree_keys(t, l as int), k));
                assert(keys_above(subtree_keys(t, rr as int), k));
                assert(false);
            }
            lemma_frame_subtree(t, t2, rr as int, i);
        }
        assert(t2[r] == t[r]);
        assert(bst_strict(t2, r));
        assert(subtree_keys(t2, r) =~= subtree_keys(t, r).insert(v));
    } else {
        let rr: usize = t[r].right->Some_0;
        lemma_left_slot_props(t, rr as int, i, v);
        lemma_add_left_child_ordered(t, t2, rr as int, i, value);
        if t[r].left is Some {
            let l: usize = t[r].left->Some_0;
            if in_subtree(t, l as int, i) {
                lemma_key_in_subtree_keys(t, l as int, i);
                lemma_key_in_subtree_keys(t, rr as int, i);
                assert(keys_below(subtree_keys(t, l as int), k));
                assert(keys_above(subtree_keys(t, rr as int), k));
                assert(false);
            }
            lemma_frame_subtree(t, t2, l as int, i);
        }
        assert(t2[r] == t[r]);
        assert(bst_strict(t2, r));
        assert(subtree_keys(t2, r) =~= subtree_keys(t, r).insert(v));
    }
}

/// As `lemma_add_left_child_ordered`, for an attachment into the empty
/// right child slot that search directs `value` to. `t2` is the arena as
/// `add_right_child` leaves it.
pub proof fn lemma_add_right_child_ordered(
    t: Seq<BstNode>,
    t2: Seq<BstNode>,
    r: int,
    i: int,
    value: i32,
)
    requires
        wf(t),
        wf(t2),
        0 <= r < t.len(),
        t2.len() == t.len() + 1,
        t2[t.len() as int]
            == (BstNode { key: Some(value), parent: Some(i as usize), left: None, right: None }),
        t2[i].right == Some((t.len() as usize)),
        t2[i].left == t[i].left,
        t2[i].key == t[i].key,
        t2[i].parent == t[i].parent,
        forall|m: int| 0 <= m < t.len() && m != i ==> t2[m] == t[m],
        bst_strict(t, r),
        right_slot_of(t, r, i, value as int),
    ensures
        bst_strict(t2, r),
        subtree_keys(t2, r) == subtree_keys(t, r).insert(value as int),
    decreases t.len() - r,
{
    assert(wf_at(t, r));
    assert(wf_at(t2, r));
    lemma_right_slot_props(t, r, i, value as int);
    let v: int = value as int;
    let k: int = t[r].key->Some_0 as int;
    let n: int = t.len() as int;
    assert(subtree_keys(t2, n) =~= Set::<int>::empty().insert(v));
    assert(bst_strict(t2, n));
    if r == i {
        if t[r].left is Some {
            let l: usize = t[r].left->Some_0;
            if in_subtree(t, l as int, r) {
                lemma_in_subtree_bounds(t, l as int, r);
            }
            lemma_frame_subtree(t, t2, l as int, i);
        }
        assert(bst_strict(t2, r));
        assert(subtree_keys(t2, r) =~= subtree_keys(t, r).insert(v));
    } else if v < k {
        let l: usize = t[r].left->Some_0;
        lemma_right_slot_props(t, l as int, i, v);
        lemma_add_right_child_ordered(t, t2, l as int, i, value);
        if t[r].right is Some {
            let rr: usize = t[r].right->Some_0;
            if in_subtree(t, rr as int, i) {
                lemma_key_in_subtree_keys(t, rr as int, i);
                lemma_key_in_subtree_keys(t, l as int, i);
                assert(keys_below(subtree_keys(t, l as int), k));
                assert(keys_above(subtree_keys(t, rr as int), k));
                assert(false);
            }
            lemma_frame_subtree(t, t2, rr as int, i);
        }
        assert(t2[r] == t[r]);
        assert(bst_strict(t2, r));
        assert(subtree_keys(t2, r) =~= subtree_keys(t, r).insert(v));
    } else {
        let rr: usize = t[r].right->Some_0;
        lemma_right_slot_props(t, rr as int, i, v);
        lemma_add_right_child_ordered(t, t2, rr as int, i, value);
        if t[r].left is Some {
            let l: usize = t[r].left->Some_0;
            if in_subtree(t, l as int, i) {
                lemma_key_in_subtree_keys(t, l as int, i);
                lemma_key_in_subtree_keys(t, rr as int, i);
                assert(keys_below(subtree_keys(t, l as int), k));
                assert(keys_above(subtree_keys(t, rr as int), k));
                assert(false);
            }
            lemma_frame_subtree(t, t2, l as int, i);
        }
        assert(t2[r] == t[r]);
        assert(bst_strict(t2, r));
        assert(subtree_keys(t2, r) =~= subtree_keys(t, r).insert(v));
    }
}

} // verus!
