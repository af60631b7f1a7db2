//! Ordered trees as preorder depth sequences.
//!
//! A tree whose nodes are numbered in depth-first order is fully described by
//! the sequence of its nodes' depths. Every structural relation (parent,
//! children, siblings, the extent of a subtree) is a function of that sequence;
//! this module defines them and proves how they fit together.

use vstd::prelude::*;

verus! {

/// `d` lists the depths of a tree's nodes in depth-first order: the root comes
/// first at depth zero, and each later node lies at most one level below the
/// node before it.
pub open spec fn preorder(d: Seq<int>) -> bool {
    &&& d.len() >= 1
    &&& d[0] == 0
    &&& forall|i: int| 1 <= i < d.len() ==> 1 <= #[trigger] d[i] <= d[i - 1] + 1
}

/// The first position at or after `from` whose depth is at most `bound`, or the
/// length of `d` if there is none.
pub open spec fn first_at_most(d: Seq<int>, bound: int, from: int) -> int
    decreases d.len() - from,
{
    if from >= d.len() {
        d.len() as int
    } else if d[from] <= bound {
        from
    } else {
        first_at_most(d, bound, from + 1)
    }
}

/// The last position at or before `from` whose depth is below `bound`, or -1 if
/// there is none.
pub open spec fn last_below(d: Seq<int>, bound: int, from: int) -> int
    decreases from + 1,
{
    if from < 0 {
        -1
    } else if d[from] < bound {
        from
    } else {
        last_below(d, bound, from - 1)
    }
}

/// One past the last node of the subtree rooted at `i`.
pub open spec fn subtree_end(d: Seq<int>, i: int) -> int {
    first_at_most(d, d[i], i + 1)
}

/// The parent of node `i`: the nearest earlier node that is shallower.
pub open spec fn parent_of(d: Seq<int>, i: int) -> Option<int> {
    let k = last_below(d, d[i], i - 1);
    if k >= 0 {
        Some(k)
    } else {
        None
    }
}

/// The first child of node `i`: the next node, if it is deeper.
pub open spec fn first_child_of(d: Seq<int>, i: int) -> Option<int> {
    if i + 1 < d.len() && d[i + 1] > d[i] {
        Some(i + 1)
    } else {
        None
    }
}

/// The next sibling of node `i`: the node that follows its subtree, if it lies
/// at the same depth.
pub open spec fn next_sibling_of(d: Seq<int>, i: int) -> Option<int> {
    let e = subtree_end(d, i);
    if e < d.len() && d[e] == d[i] {
        Some(e)
    } else {
        None
    }
}

/// The previous sibling of node `i`: the nearest earlier node that is not
/// deeper, if it lies at the same depth.
pub open spec fn previous_sibling_of(d: Seq<int>, i: int) -> Option<int> {
    let k = last_below(d, d[i] + 1, i - 1);
    if k >= 0 && d[k] == d[i] {
        Some(k)
    } else {
        None
    }
}

/// The last child of node `i`: the last node of its subtree that lies exactly
/// one level below it.
pub open spec fn last_child_of(d: Seq<int>, i: int) -> Option<int> {
    let e = subtree_end(d, i);
    if e > i + 1 {
        Some(last_below(d, d[i] + 2, e - 1))
    } else {
        None
    }
}

/// Whether node `i` is the last of its parent's children.
pub open spec fn is_last(d: Seq<int>, i: int) -> bool {
    next_sibling_of(d, i) is None
}

/// What `first_at_most` finds: everything it passed over is deeper than the
/// bound, and where it stopped is not.
pub proof fn lemma_first_at_most(d: Seq<int>, bound: int, from: int)
    requires
        0 <= from <= d.len(),
    ensures
        from <= first_at_most(d, bound, from) <= d.len(),
        forall|k: int| from <= k < first_at_most(d, bound, from) ==> d[k] > bound,
        first_at_most(d, bound, from) < d.len() ==> d[first_at_most(d, bound, from)] <= bound,
    decreases d.len() - from,
{
    if from < d.len() && d[from] > bound {
        lemma_first_at_most(d, bound, from + 1);
    }
}

/// `first_at_most` is the only position with the properties that
/// `lemma_first_at_most` lists.
pub proof fn lemma_first_at_most_is(d: Seq<int>, bound: int, from: int, e: int)
    requires
        0 <= from <= e <= d.len(),
        forall|k: int| from <= k < e ==> d[k] > bound,
        e < d.len() ==> d[e] <= bound,
    ensures
        first_at_most(d, bound, from) == e,
    decreases e - from,
{
    if from < e {
        lemma_first_at_most_is(d, bound, from + 1, e);
    }
}

/// What `last_below` finds: everything it passed over is at least as deep as
/// the bound, and where it stopped is not.
pub proof fn lemma_last_below(d: Seq<int>, bound: int, from: int)
    requires
        -1 <= from < d.len(),
    ensures
        -1 <= last_below(d, bound, from) <= from,
        forall|k: int| last_below(d, bound, from) < k <= from ==> d[k] >= bound,
        last_below(d, bound, from) >= 0 ==> d[last_below(d, bound, from)] < bound,
    decreases from + 1,
{
    if from >= 0 && d[from] >= bound {
        lemma_last_below(d, bound, from - 1);
    }
}

/// `last_below` is the only position with the properties that
/// `lemma_last_below` lists.
pub proof fn lemma_last_below_is(d: Seq<int>, bound: int, from: int, r: int)
    requires
        -1 <= r <= from < d.len(),
        forall|k: int| r < k <= from ==> d[k] >= bound,
        r >= 0 ==> d[r] < bound,
    ensures
        last_below(d, bound, from) == r,
    decreases from - r,
{
    if r < from {
        lemma_last_below_is(d, bound, from - 1, r);
    }
}

/// Going backwards through a preorder sequence, depths fall by single steps:
/// the nearest earlier node below a bound that does not exceed the depth at
/// `from` by more than one lies exactly one level below the bound.
pub proof fn lemma_last_below_depth(d: Seq<int>, bound: int, from: int)
    requires
        preorder(d),
        0 <= from < d.len(),
        1 <= bound <= d[from] + 1,
    ensures
        0 <= last_below(d, bound, from),
        d[last_below(d, bound, from)] == bound - 1,
    decreases from,
{
    if d[from] >= bound {
        assert(from >= 1);
        assert(d[from] <= d[from - 1] + 1);
        lemma_last_below_depth(d, bound, from - 1);
    }
}

/// Every node but the root has a parent, which comes earlier and lies one
/// level higher; the nodes between the two are at least as deep as the child.
pub proof fn lemma_parent(d: Seq<int>, i: int)
    requires
        preorder(d),
        1 <= i < d.len(),
    ensures
        parent_of(d, i) is Some,
        0 <= parent_of(d, i).unwrap() < i,
        d[parent_of(d, i).unwrap()] + 1 == d[i],
        forall|k: int| parent_of(d, i).unwrap() < k < i ==> d[k] >= d[i],
{
    assert(d[i] <= d[i - 1] + 1);
    lemma_last_below_depth(d, d[i], i - 1);
    lemma_last_below(d, d[i], i - 1);
}

/// A subtree ends after its root and within the sequence; its nodes are deeper
/// than its root, and the node after it is not.
pub proof fn lemma_subtree_end(d: Seq<int>, i: int)
    requires
        0 <= i < d.len(),
    ensures
        i < subtree_end(d, i) <= d.len(),
        forall|k: int| i < k < subtree_end(d, i) ==> d[k] > d[i],
        subtree_end(d, i) < d.len() ==> d[subtree_end(d, i)] <= d[i],
{
    lemma_first_at_most(d, d[i], i + 1);
}

/// The subtree of the root is the whole sequence.
pub proof fn lemma_root_subtree(d: Seq<int>)
    requires
        preorder(d),
    ensures
        subtree_end(d, 0) == d.len(),
{
    lemma_first_at_most_is(d, 0, 1, d.len() as int);
}

/// A node without children is its own subtree.
pub proof fn lemma_leaf_subtree(d: Seq<int>, i: int)
    requires
        0 <= i < d.len(),
        first_child_of(d, i) is None,
    ensures
        subtree_end(d, i) == i + 1,
{
}

/// A node with children: its subtree extends beyond the node after it.
pub proof fn lemma_inner_subtree(d: Seq<int>, i: int)
    requires
        0 <= i < d.len(),
        first_child_of(d, i) is Some,
    ensures
        subtree_end(d, i) > i + 1,
        first_child_of(d, i) == Some(i + 1),
{
    lemma_subtree_end(d, i);
}

/// The last child of a node lies one level below it, has it as parent, has no
/// next sibling, and its subtree ends where the node's own subtree ends.
pub proof fn lemma_last_child(d: Seq<int>, p: int)
    requires
        preorder(d),
        0 <= p < d.len(),
        last_child_of(d, p) is Some,
    ensures
        p < last_child_of(d, p).unwrap() < subtree_end(d, p),
        d[last_child_of(d, p).unwrap()] == d[p] + 1,
        parent_of(d, last_child_of(d, p).unwrap()) == Some(p),
        next_sibling_of(d, last_child_of(d, p).unwrap()) is None,
        subtree_end(d, last_child_of(d, p).unwrap()) == subtree_end(d, p),
{
    let e = subtree_end(d, p);
    let c = last_child_of(d, p).unwrap();
    lemma_subtree_end(d, p);
    lemma_last_below(d, d[p] + 2, e - 1);
    assert(d[p + 1] <= d[p] + 1);
    assert(d[p + 1] > d[p]);
    assert(c >= p + 1) by {
        if c < p + 1 {
            assert(d[p + 1] >= d[p] + 2);
        }
    }
    assert(d[c] > d[p]);
    lemma_first_at_most_is(d, d[c], c + 1, e);
    lemma_last_below_is(d, d[c], c - 1, p);
}

/// A node without a next sibling ends its parent's subtree: both subtrees end
/// at the same place.
pub proof fn lemma_last_sibling(d: Seq<int>, i: int)
    requires
        preorder(d),
        1 <= i < d.len(),
        next_sibling_of(d, i) is None,
    ensures
        subtree_end(d, parent_of(d, i).unwrap()) == subtree_end(d, i),
        last_child_of(d, parent_of(d, i).unwrap()) == Some(i),
{
    let p = parent_of(d, i).unwrap();
    let e = subtree_end(d, i);
    lemma_parent(d, i);
    lemma_subtree_end(d, i);
    lemma_first_at_most_is(d, d[p], p + 1, e);
    lemma_last_below_is(d, d[p] + 2, e - 1, i);
}

/// The next sibling of a node comes after it at the same depth, under the same
/// parent, and has the node as its previous sibling.
pub proof fn lemma_next_sibling(d: Seq<int>, i: int)
    requires
        preorder(d),
        0 <= i < d.len(),
        next_sibling_of(d, i) is Some,
    ensures
        1 <= i < next_sibling_of(d, i).unwrap() < d.len(),
        next_sibling_of(d, i).unwrap() == subtree_end(d, i),
        d[next_sibling_of(d, i).unwrap()] == d[i],
        parent_of(d, next_sibling_of(d, i).unwrap()) == parent_of(d, i),
        previous_sibling_of(d, next_sibling_of(d, i).unwrap()) == Some(i),
{
    let s = next_sibling_of(d, i).unwrap();
    lemma_subtree_end(d, i);
    if i == 0 {
        lemma_root_subtree(d);
    }
    lemma_parent(d, i);
    let p = parent_of(d, i).unwrap();
    lemma_last_below_is(d, d[s], s - 1, p);
    lemma_last_below_is(d, d[s] + 1, s - 1, i);
}

/// The previous sibling of a node comes before it at the same depth and has the
/// node as its next sibling.
pub proof fn lemma_previous_sibling(d: Seq<int>, i: int)
    requires
        preorder(d),
        0 <= i < d.len(),
        previous_sibling_of(d, i) is Some,
    ensures
        0 <= previous_sibling_of(d, i).unwrap() < i,
        d[previous_sibling_of(d, i).unwrap()] == d[i],
        next_sibling_of(d, previous_sibling_of(d, i).unwrap()) == Some(i),
{
    let k = previous_sibling_of(d, i).unwrap();
    lemma_last_below(d, d[i] + 1, i - 1);
    lemma_first_at_most_is(d, d[k], k + 1, i);
}

/// The first child of a node has the node as parent and no previous sibling.
pub proof fn lemma_first_child(d: Seq<int>, i: int)
    requires
        preorder(d),
        0 <= i < d.len(),
        first_child_of(d, i) is Some,
    ensures
        first_child_of(d, i) == Some(i + 1),
        d[i + 1] == d[i] + 1,
        parent_of(d, i + 1) == Some(i),
        previous_sibling_of(d, i + 1) is None,
        last_child_of(d, i) is Some,
{
    assert(d[i + 1] <= d[i] + 1);
    lemma_subtree_end(d, i);
}

/// Every link of a node points inside the sequence.
pub proof fn lemma_links_in_range(d: Seq<int>, i: int)
    requires
        preorder(d),
        0 <= i < d.len(),
    ensures
        parent_of(d, i) matches Some(k) ==> 0 <= k < i,
        first_child_of(d, i) matches Some(k) ==> i < k < d.len(),
        last_child_of(d, i) matches Some(k) ==> i < k < d.len(),
        next_sibling_of(d, i) matches Some(k) ==> i < k < d.len(),
        previous_sibling_of(d, i) matches Some(k) ==> 0 <= k < i,
{
    lemma_last_below(d, d[i], i - 1);
    lemma_last_below(d, d[i] + 1, i - 1);
    lemma_subtree_end(d, i);
    if last_child_of(d, i) is Some {
        lemma_last_child(d, i);
    }
}

/// Appending a depth does not change what `last_below` finds among the depths
/// that were there before.
pub proof fn lemma_push_last_below(d: Seq<int>, x: int, bound: int, from: int)
    requires
        -1 <= from < d.len(),
    ensures
        last_below(d.push(x), bound, from) == last_below(d, bound, from),
    decreases from + 1,
{
    if from >= 0 && d[from] >= bound {
        lemma_push_last_below(d, x, bound, from - 1);
    }
}

/// Appending a depth changes what `first_at_most` finds only where it found
/// nothing before.
pub proof fn lemma_push_first_at_most(d: Seq<int>, x: int, bound: int, from: int)
    requires
        0 <= from <= d.len(),
    ensures
        first_at_most(d, bound, from) < d.len() ==> first_at_most(d.push(x), bound, from)
            == first_at_most(d, bound, from),
        first_at_most(d, bound, from) == d.len() ==> first_at_most(d.push(x), bound, from) == (if x
            <= bound {
            d.len() as int
        } else {
            d.len() as int + 1
        }),
    decreases d.len() - from,
{
    let d2 = d.push(x);
    if from < d.len() {
        assert(d2[from] == d[from]);
        if d[from] > bound {
            lemma_push_first_at_most(d, x, bound, from + 1);
        }
    } else {
        assert(d2[from] == x);
        assert(first_at_most(d2, bound, from + 1) == d2.len());
    }
}

/// The links of a node `i` of a tree, after a new last node of depth `dd` has
/// been appended below `c`, a node whose subtree reaches the end of the tree.
pub proof fn lemma_push_old_node(d: Seq<int>, c: int, dd: int, i: int)
    requires
        preorder(d),
        0 <= c < d.len(),
        subtree_end(d, c) == d.len(),
        dd == d[c] + 1,
        0 <= i < d.len(),
    ensures
        parent_of(d.push(dd), i) == parent_of(d, i),
        previous_sibling_of(d.push(dd), i) == previous_sibling_of(d, i),
        first_child_of(d.push(dd), i) == (if i == c && first_child_of(d, c) is None {
            Some(d.len() as int)
        } else {
            first_child_of(d, i)
        }),
        last_child_of(d.push(dd), i) == (if i == c {
            Some(d.len() as int)
        } else {
            last_child_of(d, i)
        }),
        next_sibling_of(d.push(dd), i) == (if last_child_of(d, c) == Some(i) {
            Some(d.len() as int)
        } else {
            next_sibling_of(d, i)
        }),
{
    let n = d.len() as int;
    let d2 = d.push(dd);
    assert(d2[i] == d[i]);
    lemma_push_last_below(d, dd, d[i], i - 1);
    lemma_push_last_below(d, dd, d[i] + 1, i - 1);
    lemma_last_below(d, d[i] + 1, i - 1);
    let k = last_below(d, d[i] + 1, i - 1);
    if k >= 0 {
        assert(d2[k] == d[k]);
    }
    lemma_subtree_end(d, c);
    lemma_subtree_end(d, i);
    if last_child_of(d, c) is Some {
        lemma_last_child(d, c);
    }
    if i + 1 < n {
        assert(d2[i + 1] == d[i + 1]);
    } else {
        assert(d2[i + 1] == dd);
    }
    let e = subtree_end(d, i);
    lemma_push_first_at_most(d, dd, d[i], i + 1);
    if e < n {
        assert(d2[e] == d[e]);
        lemma_push_last_below(d, dd, d[i] + 2, e - 1);
    } else if i == c {
        assert(d2[n] == dd);
    } else if i < c {
        assert(d[c] > d[i]);
        assert(d2[n] == dd);
        lemma_push_last_below(d, dd, d[i] + 2, n - 1);
    } else {
        assert(d[i] > d[c]);
        assert(d2[n] == dd);
        if d[i] == dd {
            lemma_last_below_is(d, d[c] + 2, n - 1, i);
        }
        lemma_push_last_below(d, dd, d[i] + 2, n - 1);
    }
}

/// The links of a new last node of depth `dd`, appended below `c`, a node
/// whose subtree reaches the end of the tree; and the tree is still in
/// depth-first order, with the subtree of `c` still reaching its end.
pub proof fn lemma_push_new_node(d: Seq<int>, c: int, dd: int)
    requires
        preorder(d),
        0 <= c < d.len(),
        subtree_end(d, c) == d.len(),
        dd == d[c] + 1,
    ensures
        preorder(d.push(dd)),
        parent_of(d.push(dd), d.len() as int) == Some(c),
        previous_sibling_of(d.push(dd), d.len() as int) == last_child_of(d, c),
        first_child_of(d.push(dd), d.len() as int) is None,
        last_child_of(d.push(dd), d.len() as int) is None,
        next_sibling_of(d.push(dd), d.len() as int) is None,
        subtree_end(d.push(dd), d.len() as int) == d.len() + 1,
        subtree_end(d.push(dd), c) == d.len() + 1,
{
    let n = d.len() as int;
    let d2 = d.push(dd);
    lemma_subtree_end(d, c);
    assert(d2[n] == dd);
    assert(d2[c] == d[c]);
    assert(preorder(d2)) by {
        assert forall|i: int| 1 <= i < d2.len() implies 1 <= #[trigger] d2[i] <= d2[i - 1] + 1 by {
            if i < n {
                assert(d2[i] == d[i]);
                assert(d2[i - 1] == d[i - 1]);
            } else {
                assert(d2[n - 1] == d[n - 1]);
            }
        }
    }
    assert forall|k: int| c < k <= n - 1 implies d2[k] >= dd by {
        assert(d2[k] == d[k]);
    }
    lemma_last_below_is(d2, dd, n - 1, c);
    lemma_push_first_at_most(d, dd, d[c], c + 1);
    if last_child_of(d, c) is Some {
        lemma_last_child(d, c);
        lemma_push_last_below(d, dd, dd + 1, n - 1);
    } else {
        assert(c == n - 1);
    }
}

/// A child lies inside the subtree of its parent.
pub proof fn lemma_child_in_subtree(d: Seq<int>, i: int)
    requires
        preorder(d),
        1 <= i < d.len(),
    ensures
        parent_of(d, i).unwrap() < i < subtree_end(d, parent_of(d, i).unwrap()),
{
    let p = parent_of(d, i).unwrap();
    lemma_parent(d, i);
    lemma_subtree_end(d, p);
    let e = subtree_end(d, p);
    if e <= i {
        assert(d[e] <= d[p]);
        if e < i {
            assert(d[e] >= d[i]);
        }
    }
}

/// A child `c` of node `r` among its siblings: it is the last child exactly
/// if it has no next sibling; its next sibling, if there is one, follows its
/// subtree at once and is a child of `r` too; and if there is none, its
/// subtree ends that of `r`.
pub proof fn lemma_child_step(d: Seq<int>, r: int, c: int)
    requires
        preorder(d),
        0 <= r < c < d.len(),
        parent_of(d, c) == Some(r),
    ensures
        c < subtree_end(d, c) <= subtree_end(d, r) <= d.len(),
        (last_child_of(d, r) == Some(c)) == is_last(d, c),
        next_sibling_of(d, c) == (if subtree_end(d, c) < subtree_end(d, r) {
            Some(subtree_end(d, c))
        } else {
            None
        }),
        subtree_end(d, c) < subtree_end(d, r) ==> parent_of(d, subtree_end(d, c)) == Some(r),
{
    lemma_child_in_subtree(d, c);
    lemma_subtree_end(d, c);
    lemma_subtree_end(d, r);
    if next_sibling_of(d, c) is Some {
        lemma_next_sibling(d, c);
        lemma_child_in_subtree(d, subtree_end(d, c));
        if last_child_of(d, r) == Some(c) {
            lemma_last_child(d, r);
        }
    } else {
        lemma_last_sibling(d, c);
    }
}

/// How many ancestors node `i` has: its level in the tree.
pub open spec fn level(d: Seq<int>, i: int) -> int
    decreases i,
{
    let p = parent_of(d, i);
    if i > 0 && p is Some && 0 <= p.unwrap() < i {
        1 + level(d, p.unwrap())
    } else {
        0
    }
}

/// The level of a node in the tree is the depth that the sequence gives it.
pub proof fn lemma_level(d: Seq<int>, i: int)
    requires
        preorder(d),
        0 <= i < d.len(),
    ensures
        level(d, i) == d[i],
    decreases i,
{
    if i > 0 {
        lemma_parent(d, i);
        lemma_level(d, parent_of(d, i).unwrap());
    }
}

} // verus!
