//! The binary search tree itself: node records, the arena that owns them,
//! and the navigation operations (search, minimum/maximum, root discovery,
//! in-order successor).

use vstd::prelude::*;

use crate::model::{
    attached, bst_ordered, bst_strict, in_subtree, keys_above, keys_at_least, keys_below,
    leftmost, rightmost, root_of, subtree_keys, wf, wf_at,
};
use crate::model::{
    lemma_attached_in_subtree, lemma_in_subtree_trans, lemma_key_in_subtree_keys,
    lemma_least_above_chain, lemma_leftmost_min, lemma_rightmost_max,
    lemma_strict_implies_ordered, lemma_strict_in_subtree, lemma_subtree_keys_subset,
};

verus! {

/// A single tree node. The key is optional: a keyless node is a sentinel
/// placeholder, distinct from an absent child. Links are arena indices;
/// `left` and `right` are owning, `parent` is a non-owning back-link.
#[derive(Clone, Copy, Debug)]
pub struct BstNode {
    pub key: Option<i32>,
    pub parent: Option<usize>,
    pub left: Option<usize>,
    pub right: Option<usize>,
}

/// The arena owning every node of one or more trees. Nodes are only ever
/// appended, and a child is always created after its parent, so child links
/// point forwards and parent links point backwards: see `model::wf`.
pub struct BstTree {
    pub nodes: Vec<BstNode>,
}

impl View for BstTree {
    type V = Seq<BstNode>;

    open spec fn view(&self) -> Seq<BstNode> {
        self.nodes@
    }
}

impl BstTree {
    /// An empty arena, trivially well-formed.
    pub fn new() -> (tree: BstTree)
        ensures
            tree@.len() == 0,
            wf(tree@),
    {
        BstTree { nodes: Vec::new() }
    }
}

impl BstNode {
    /// A root-like node: the given key, no children, no parent.
    fn new(key: i32) -> (node: BstNode)
        ensures
            node.key == Some(key),
            node.parent is None,
            node.left is None,
            node.right is None,
    {
        BstNode { key: Some(key), parent: None, left: None, right: None }
    }

    /// Appends a fresh root node with the given key to the arena and returns
    /// its link.
    pub fn new_bst_nodelink(tree: &mut BstTree, value: i32) -> (j: usize)
        requires
            wf(old(tree)@),
        ensures
            j == old(tree)@.len(),
            final(tree)@ == old(tree)@.push((BstNode { key: Some(value), parent: None, left: None, right: None })),
            wf(final(tree)@),
    {
        let j: usize = tree.nodes.len();
        let node = BstNode::new(value);
        tree.nodes.push(node);
        proof {
            vstd::std_specs::vec::axiom_spec_len(&tree.nodes);
            assert forall|i: int| 0 <= i < tree@.len() implies wf_at(tree@, i) by {
                if i < old(tree)@.len() {
                    assert(wf_at(old(tree)@, i));
                }
            }
        }
        j
    }

    /// A duplicate of this node's own fields: the key and shallow copies of
    /// its links.
    pub fn get_bst_nodelink_copy(&self) -> (node: BstNode)
        ensures
            node == *self,
    {
        BstNode { key: self.key, parent: self.parent, left: self.left, right: self.right }
    }

    /// Appends a fresh node whose parent back-link is `parent`, without
    /// installing it in any child slot, and returns its link.
    fn new_with_parent(tree: &mut BstTree, parent: usize, value: i32) -> (j: usize)
        requires
            wf(old(tree)@),
            parent < old(tree)@.len(),
        ensures
            j == old(tree)@.len(),
            final(tree)@ == old(tree)@.push((BstNode { key: Some(value), parent: Some(parent), left: None, right: None })),
            wf(final(tree)@),
    {
        let j: usize = tree.nodes.len();
        let node = BstNode { key: Some(value), parent: Some(parent), left: None, right: None };
        tree.nodes.push(node);
        proof {
            vstd::std_specs::vec::axiom_spec_len(&tree.nodes);
            assert forall|i: int| 0 <= i < tree@.len() implies wf_at(tree@, i) by {
                if i < old(tree)@.len() {
                    assert(wf_at(old(tree)@, i));
                }
            }
        }
        j
    }

    /// Creates a fresh node with key `value` and parent back-link `i`, and
    /// installs it as the left child of node `i`, replacing whatever child
    /// was there. The replaced subtree stays in the arena but is detached;
    /// no ordering validation is performed.
    pub fn add_left_child(tree: &mut BstTree, i: usize, value: i32)
        requires
            wf(old(tree)@),
            i < old(tree)@.len(),
        ensures
            final(tree)@.len() == old(tree)@.len() + 1,
            final(tree)@[old(tree)@.len() as int]
                == (BstNode { key: Some(value), parent: Some(i), left: None, right: None }),
            final(tree)@[i as int].left == Some((old(tree)@.len() as usize)),
            final(tree)@[i as int].right == old(tree)@[i as int].right,
            final(tree)@[i as int].key == old(tree)@[i as int].key,
            final(tree)@[i as int].parent == old(tree)@[i as int].parent,
            forall|j: int| 0 <= j < old(tree)@.len() && j != i ==> final(tree)@[j] == old(tree)@[j],
            wf(final(tree)@),
    {
        let j: usize = BstNode::new_with_parent(tree, i, value);
        let mut node = tree.nodes[i];
        node.left = Some(j);
        tree.nodes.set(i, node);
        proof {
            assert forall|k: int| 0 <= k < tree@.len() implies wf_at(tree@, k) by {
                if k < old(tree)@.len() {
                    assert(wf_at(old(tree)@, k));
                }
                assert(wf_at(old(tree)@, i as int));
            }
        }
    }

    /// As `add_left_child`, for the right child slot.
    pub fn add_right_child(tree: &mut BstTree, i: usize, value: i32)
        requires
            wf(old(tree)@),
            i < old(tree)@.len(),
        ensures
            final(tree)@.len() == old(tree)@.len() + 1,
            final(tree)@[old(tree)@.len() as int]
                == (BstNode { key: Some(value), parent: Some(i), left: None, right: None }),
            final(tree)@[i as int].right == Some((old(tree)@.len() as usize)),
            final(tree)@[i as int].left == old(tree)@[i as int].left,
            final(tree)@[i as int].key == old(tree)@[i as int].key,
            final(tree)@[i as int].parent == old(tree)@[i as int].parent,
            forall|j: int| 0 <= j < old(tree)@.len() && j != i ==> final(tree)@[j] == old(tree)@[j],
            wf(final(tree)@),
    {
        let j: usize = BstNode::new_with_parent(tree, i, value);
        let mut node = tree.nodes[i];
        node.right = Some(j);
        tree.nodes.set(i, node);
        proof {
            assert forall|k: int| 0 <= k < tree@.len() implies wf_at(tree@, k) by {
                if k < old(tree)@.len() {
                    assert(wf_at(old(tree)@, k));
                }
                assert(wf_at(old(tree)@, i as int));
            }
        }
    }

    /// Searches the subtree rooted at `x` for a node with key `value`:
    /// stops on an equal key, descends left on a smaller target and right on
    /// a larger one, and reports absence on a missing child or a sentinel
    /// (keyless) node. Under the tree-order invariant a node is found if and
    /// only if the key is present in the subtree.
    pub fn tree_search(tree: &BstTree, x: usize, value: &i32) -> (r: Option<usize>)
        requires
            wf(tree@),
            x < tree@.len(),
        ensures
            r matches Some(j) ==> j < tree@.len()
                && in_subtree(tree@, x as int, j as int)
                && tree@[j as int].key == Some(*value),
            bst_ordered(tree@, x as int)
                ==> (r is Some <==> subtree_keys(tree@, x as int).contains(*value as int)),
    {
        let mut current: usize = x;
        loop
            invariant
                wf(tree@),
                x < tree@.len(),
                current < tree@.len(),
                in_subtree(tree@, x as int, current as int),
                bst_ordered(tree@, x as int) ==> bst_ordered(tree@, current as int),
                bst_ordered(tree@, x as int) ==> (subtree_keys(tree@, x as int).contains(*value as int)
                    <==> subtree_keys(tree@, current as int).contains(*value as int)),
            decreases tree@.len() - current,
        {
            let ci: usize = current;
            match tree.nodes[ci].key {
                None => {
                    return None;
                }
                Some(k) => {
                    if k == *value {
                        proof {
                            assert(subtree_keys(tree@, ci as int).contains(k as int));
                        }
                        return Some(ci);
                    }
                    let next = if *value < k { tree.nodes[ci].left } else { tree.nodes[ci].right };
                    proof {
                        assert(wf_at(tree@, ci as int));
                        if bst_ordered(tree@, x as int) {
                            let t = tree@;
                            let v = *value as int;
                            let own = Set::<int>::empty().insert(k as int);
                            assert(!own.contains(v));
                            if *value < k {
                                if t[ci as int].right is Some {
                                    assert(keys_at_least(subtree_keys(t, t[ci as int].right->Some_0 as int), k as int));
                                    assert(!subtree_keys(t, t[ci as int].right->Some_0 as int).contains(v));
                                }
                                if next is None {
                                    assert(!subtree_keys(t, ci as int).contains(v));
                                } else {
                                    assert(subtree_keys(t, ci as int).contains(v)
                                        <==> subtree_keys(t, next->Some_0 as int).contains(v));
                                }
                            } else {
                                if t[ci as int].left is Some {
                                    assert(keys_below(subtree_keys(t, t[ci as int].left->Some_0 as int), k as int));
                                    assert(!subtree_keys(t, t[ci as int].left->Some_0 as int).contains(v));
                                }
                                if next is None {
                                    assert(!subtree_keys(t, ci as int).contains(v));
                                } else {
                                    assert(subtree_keys(t, ci as int).contains(v)
                                        <==> subtree_keys(t, next->Some_0 as int).contains(v));
                                }
                            }
                        }
                    }
                    match next {
                        None => {
                            return None;
                        }
                        Some(nx) => {
                            proof {
                                assert(in_subtree(tree@, nx as int, nx as int));
                                assert(in_subtree(tree@, ci as int, nx as int));
                                lemma_in_subtree_trans(tree@, x as int, ci as int, nx as int);
                            }
                            current = nx;
                        }
                    }
                }
            }
        }
    }

    /// Descends left links from `x` as far as possible. Under the tree-order
    /// invariant the node reached holds the smallest key of `x`'s subtree.
    pub fn minimum(tree: &BstTree, x: usize) -> (r: usize)
        requires
            wf(tree@),
            x < tree@.len(),
        ensures
            r < tree@.len(),
            r as int == leftmost(tree@, x as int),
            in_subtree(tree@, x as int, r as int),
            tree@[r as int].left is None,
            bst_ordered(tree@, x as int) ==> {
                &&& tree@[r as int].key is Some
                &&& subtree_keys(tree@, x as int).contains(tree@[r as int].key->Some_0 as int)
                &&& forall|k: int| subtree_keys(tree@, x as int).contains(k)
                        ==> tree@[r as int].key->Some_0 as int <= k
            },
    {
        let mut current: usize = x;
        loop
            invariant
                wf(tree@),
                x < tree@.len(),
                current < tree@.len(),
                in_subtree(tree@, x as int, current as int),
                leftmost(tree@, current as int) == leftmost(tree@, x as int),
            decreases tree@.len() - current,
        {
            match tree.nodes[current].left {
                None => {
                    proof {
                        if bst_ordered(tree@, x as int) {
                            lemma_leftmost_min(tree@, x as int);
                        }
                    }
                    return current;
                }
                Some(l) => {
                    proof {
                        assert(wf_at(tree@, current as int));
                        assert(in_subtree(tree@, l as int, l as int));
                        assert(in_subtree(tree@, current as int, l as int));
                        lemma_in_subtree_trans(tree@, x as int, current as int, l as int);
                    }
                    current = l;
                }
            }
        }
    }

    /// Descends right links from `x` as far as possible. Under the tree-order
    /// invariant the node reached holds the largest key of `x`'s subtree.
    pub fn maximum(tree: &BstTree, x: usize) -> (r: usize)
        requires
            wf(tree@),
            x < tree@.len(),
        ensures
            r < tree@.len(),
            r as int == rightmost(tree@, x as int),
            in_subtree(tree@, x as int, r as int),
            tree@[r as int].right is None,
            bst_ordered(tree@, x as int) ==> {
                &&& tree@[r as int].key is Some
                &&& subtree_keys(tree@, x as int).contains(tree@[r as int].key->Some_0 as int)
                &&& forall|k: int| subtree_keys(tree@, x as int).contains(k)
                        ==> k <= tree@[r as int].key->Some_0 as int
            },
    {
        let mut current: usize = x;
        loop
            invariant
                wf(tree@),
                x < tree@.len(),
                current < tree@.len(),
                in_subtree(tree@, x as int, current as int),
                rightmost(tree@, current as int) == rightmost(tree@, x as int),
            decreases tree@.len() - current,
        {
            match tree.nodes[current].right {
                None => {
                    proof {
                        if bst_ordered(tree@, x as int) {
                            lemma_rightmost_max(tree@, x as int);
                        }
                    }
                    return current;
                }
                Some(rr) => {
                    proof {
                        assert(wf_at(tree@, current as int));
                        assert(in_subtree(tree@, rr as int, rr as int));
                        assert(in_subtree(tree@, current as int, rr as int));
                        lemma_in_subtree_trans(tree@, x as int, current as int, rr as int);
                    }
                    current = rr;
                }
            }
        }
    }

    /// Walks parent back-links upward until a node with no parent is found:
    /// the root of the tree the node belongs to. The walk is a loop, not a
    /// recursion, so arbitrarily deep trees cannot exhaust the stack.
    pub fn get_root(tree: &BstTree, x: usize) -> (r: usize)
        requires
            wf(tree@),
            x < tree@.len(),
        ensures
            r < tree@.len(),
            r as int == root_of(tree@, x as int),
            tree@[r as int].parent is None,
    {
        let mut current: usize = x;
        loop
            invariant
                wf(tree@),
                x < tree@.len(),
                current < tree@.len(),
                root_of(tree@, current as int) == root_of(tree@, x as int),
            decreases current,
        {
            match tree.nodes[current].parent {
                None => {
                    return current;
                }
                Some(p) => {
                    proof {
                        assert(wf_at(tree@, current as int));
                    }
                    current = p;
                }
            }
        }
    }

    /// The in-order successor of the node at `x` within its tree: with a
    /// right child, the minimum of the right subtree; otherwise the first
    /// ancestor reached through a parent whose left child the walk came
    /// from. The maximum-keyed node of the tree is its own successor, by
    /// design: callers detect "no successor" by comparing with the input.
    /// The upward walk identifies nodes by key, so it is specified under the
    /// strict tree-order invariant, which makes keys distinct.
    pub fn tree_successor(tree: &BstTree, x: usize) -> (r: usize)
        requires
            wf(tree@),
            x < tree@.len(),
            attached(tree@, x as int),
            bst_strict(tree@, root_of(tree@, x as int)),
        ensures
            r < tree@.len(),
            in_subtree(tree@, root_of(tree@, x as int), r as int),
            (exists|k: int| subtree_keys(tree@, root_of(tree@, x as int)).contains(k)
                    && k > tree@[x as int].key->Some_0 as int) ==> {
                &&& tree@[r as int].key is Some
                &&& subtree_keys(tree@, root_of(tree@, x as int)).contains(tree@[r as int].key->Some_0 as int)
                &&& tree@[r as int].key->Some_0 as int > tree@[x as int].key->Some_0 as int
                &&& forall|k: int| subtree_keys(tree@, root_of(tree@, x as int)).contains(k)
                        && k > tree@[x as int].key->Some_0 as int
                        ==> tree@[r as int].key->Some_0 as int <= k
            },
            (forall|k: int| subtree_keys(tree@, root_of(tree@, x as int)).contains(k)
                    ==> k <= tree@[x as int].key->Some_0 as int) ==> r == x,
    {
        let ghost t = tree@;
        let ghost rt: int = root_of(t, x as int);
        let ghost xk: int = t[x as int].key->Some_0 as int;
        proof {
            lemma_attached_in_subtree(t, x as int);
            lemma_strict_in_subtree(t, rt, x as int);
            lemma_key_in_subtree_keys(t, rt, x as int);
            assert(wf_at(t, x as int));
        }
        match tree.nodes[x].right {
            Some(rc) => {
                proof {
                    assert(bst_strict(t, rc as int));
                    lemma_strict_implies_ordered(t, rc as int);
                }
                let m: usize = BstNode::minimum(tree, rc);
                proof {
                    let mk: int = t[m as int].key->Some_0 as int;
                    assert(keys_above(subtree_keys(t, rc as int), xk));
                    assert(subtree_keys(t, rc as int).contains(mk));
                    assert(mk > xk);
                    assert(in_subtree(t, rc as int, rc as int));
                    assert(in_subtree(t, x as int, rc as int));
                    lemma_in_subtree_trans(t, x as int, rc as int, m as int);
                    lemma_in_subtree_trans(t, rt, x as int, m as int);
                    assert(subtree_keys(t, x as int).contains(mk));
                    lemma_subtree_keys_subset(t, rt, x as int);
                    assert(subtree_keys(t, rt).contains(mk));
                    assert(subtree_keys(t, x as int).contains(xk));
                    assert forall|k: int| subtree_keys(t, x as int).contains(k) && k > xk
                        implies k >= mk by {
                        if k == xk {
                        } else if subtree_keys(t, rc as int).contains(k) {
                        } else {
                            let l: usize = t[x as int].left->Some_0;
                            assert(t[x as int].left is Some
                                && subtree_keys(t, l as int).contains(k));
                            assert(keys_below(subtree_keys(t, l as int), xk));
                        }
                    }
                    lemma_least_above_chain(t, x as int, xk, mk);
                }
                m
            }
            None => {
                proof {
                    assert forall|k: int| subtree_keys(t, x as int).contains(k)
                        implies k <= xk by {
                        if k == xk {
                        } else {
                            let l: usize = t[x as int].left->Some_0;
                            assert(t[x as int].left is Some
                                && subtree_keys(t, l as int).contains(k));
                            assert(keys_below(subtree_keys(t, l as int), xk));
                        }
                    }
                    assert(in_subtree(t, x as int, x as int));
                }
                let mut current: usize = x;
                loop
                    invariant
                        wf(t),
                        t == tree@,
                        x < t.len(),
                        current < t.len(),
                        rt == root_of(t, x as int),
                        xk == t[x as int].key->Some_0 as int,
                        attached(t, x as int),
                        bst_strict(t, rt),
                        0 <= rt < t.len(),
                        in_subtree(t, rt, x as int),
                        t[x as int].key is Some,
                        subtree_keys(t, rt).contains(xk),
                        attached(t, current as int),
                        root_of(t, current as int) == rt,
                        in_subtree(t, current as int, x as int),
                        forall|k: int| subtree_keys(t, current as int).contains(k) ==> k <= xk,
                    decreases current,
                {
                    let ci: usize = current;
                    proof {
                        assert(wf_at(t, ci as int));
                    }
                    match tree.nodes[ci].parent {
                        None => {
                            proof {
                                assert(root_of(t, ci as int) == ci as int);
                            }
                            return x;
                        }
                        Some(p) => {
                            proof {
                                assert(wf_at(t, p as int));
                                assert(root_of(t, ci as int) == root_of(t, p as int));
                                lemma_attached_in_subtree(t, p as int);
                                lemma_strict_in_subtree(t, rt, p as int);
                                lemma_attached_in_subtree(t, ci as int);
                                lemma_strict_in_subtree(t, rt, ci as int);
                                lemma_key_in_subtree_keys(t, ci as int, x as int);
                            }
                            let test = BstNode::is_node_match_option(
                                tree,
                                Some(ci),
                                tree.nodes[p].right,
                            );
                            if test {
                                proof {
                                    let kp: int = t[p as int].key->Some_0 as int;
                                    let kc: int = t[ci as int].key->Some_0 as int;
                                    if t[p as int].left == Some(ci) {
                                        let prc: usize = t[p as int].right->Some_0;
                                        assert(t[p as int].right is Some);
                                        assert(keys_below(subtree_keys(t, ci as int), kp));
                                        assert(subtree_keys(t, ci as int).contains(kc));
                                        assert(bst_strict(t, prc as int));
                                        let kpr: int = t[prc as int].key->Some_0 as int;
                                        assert(subtree_keys(t, prc as int).contains(kpr));
                                        assert(keys_above(subtree_keys(t, prc as int), kp));
                                        assert(t[ci as int].key == t[prc as int].key);
                                        assert(false);
                                    }
                                    assert(t[p as int].right == Some(ci));
                                    assert(keys_above(subtree_keys(t, ci as int), kp));
                                    assert(kp < xk);
                                    assert forall|k: int| subtree_keys(t, p as int).contains(k)
                                        implies k <= xk by {
                                        if k == kp {
                                        } else if subtree_keys(t, ci as int).contains(k) {
                                        } else {
                                            let l: usize = t[p as int].left->Some_0;
                                            assert(t[p as int].left is Some
                                                && subtree_keys(t, l as int).contains(k));
                                            assert(keys_below(subtree_keys(t, l as int), kp));
                                        }
                                    }
                                    assert(in_subtree(t, p as int, x as int));
                                }
                                current = p;
                            } else {
                                proof {
                                    let kp: int = t[p as int].key->Some_0 as int;
                                    if t[p as int].right == Some(ci) {
                                        assert(false);
                                    }
                                    assert(t[p as int].left == Some(ci));
                                    assert(keys_below(subtree_keys(t, ci as int), kp));
                                    assert(kp > xk);
                                    assert(subtree_keys(t, p as int).contains(kp));
                                    assert(subtree_keys(t, p as int).contains(xk));
                                    assert forall|k: int| subtree_keys(t, p as int).contains(k)
                                        && k > xk implies k >= kp by {
                                        if k == kp {
                                        } else if subtree_keys(t, ci as int).contains(k) {
                                        } else {
                                            let rr: usize = t[p as int].right->Some_0;
                                            assert(t[p as int].right is Some
                                                && subtree_keys(t, rr as int).contains(k));
                                            assert(keys_above(subtree_keys(t, rr as int), kp));
                                        }
                                    }
                                    lemma_least_above_chain(t, p as int, xk, kp);
                                    lemma_key_in_subtree_keys(t, rt, p as int);
                                }
                                return p;
                            }
                        }
                    }
                }
            }
        }
    }

    /// Compares the nodes at two links by key value, the equality used
    /// throughout the navigation operations.
    fn is_node_match(tree: &BstTree, a: usize, b: usize) -> (r: bool)
        requires
            a < tree@.len(),
            b < tree@.len(),
        ensures
            r == (tree@[a as int].key == tree@[b as int].key),
    {
        match (tree.nodes[a].key, tree.nodes[b].key) {
            (None, None) => true,
            (Some(ka), Some(kb)) => ka == kb,
            _ => false,
        }
    }

    /// Compares two optional links by key value: both absent counts as a
    /// match, one absent does not.
    fn is_node_match_option(tree: &BstTree, a: Option<usize>, b: Option<usize>) -> (r: bool)
        requires
            a matches Some(i) ==> i < tree@.len(),
            b matches Some(j) ==> j < tree@.len(),
        ensures
            r == match (a, b) {
                (None, None) => true,
                (Some(i), Some(j)) => tree@[i as int].key == tree@[j as int].key,
                _ => false,
            },
    {
        match (a, b) {
            (None, None) => true,
            (Some(i), Some(j)) => BstNode::is_node_match(tree, i, j),
            _ => false,
        }
    }
}

} // verus!
