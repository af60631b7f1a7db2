//! How the links that the arena holds relate to the shape of the tree.
//!
//! The builder creates nodes in depth-first order, so the arena's slots, read
//! in storage order, are the tree's nodes in depth-first order: slot `i` holds
//! the node with handle `i + 1`, which is shown on line `i`.

use vstd::prelude::*;
use indextree::Arena;
use crate::arena::{appended, arena_append, arena_new_node, arena_slots, fresh_slot, live, Slot};
use crate::entry::{FsEntry, FsEntryView};
use crate::shape::{
    first_child_of, last_child_of, lemma_first_child, lemma_last_child, lemma_last_sibling,
    lemma_links_in_range, lemma_next_sibling, lemma_parent, lemma_push_new_node,
    lemma_push_old_node, lemma_root_subtree, lemma_subtree_end, next_sibling_of, parent_of,
    preorder, previous_sibling_of, subtree_end,
};

verus! {

/// The handle of the node on a line, where there is one.
pub open spec fn to_handle(o: Option<int>) -> Option<usize> {
    match o {
        Some(k) => Some((k + 1) as usize),
        None => None,
    }
}

/// The depth that the walk reported of each node, in storage order.
pub open spec fn depths(s: Seq<Slot>) -> Seq<int> {
    s.map_values(|x: Slot| x.data.de.depth as int)
}

/// The entries of the nodes, in storage order.
pub open spec fn entries(s: Seq<Slot>) -> Seq<FsEntryView> {
    s.map_values(|x: Slot| x.data@)
}

/// The depths of a sequence of entries.
pub open spec fn entry_depths(es: Seq<FsEntryView>) -> Seq<int> {
    es.map_values(|e: FsEntryView| e.de.depth as int)
}

/// The depths of the slots are the depths of their entries.
pub proof fn lemma_entry_depths(s: Seq<Slot>)
    ensures
        entry_depths(entries(s)) == depths(s),
{
    assert(entry_depths(entries(s)) =~= depths(s));
}

/// An arena that holds nothing but a root at depth zero holds a tree.
pub proof fn lemma_single_tree(data: FsEntry)
    requires
        data.de.depth == 0,
    ensures
        is_tree(seq![fresh_slot(data)]),
        subtree_end(depths(seq![fresh_slot(data)]), 0) == 1,
        entries(seq![fresh_slot(data)]) == seq![data@],
{
    reveal(is_tree);
    let s = seq![fresh_slot(data)];
    assert(depths(s) =~= seq![0int]);
    assert(entries(s) =~= seq![data@]);
    assert(slot_agrees(s, 0));
}

/// The links of slot `i` are those of node `i` in the tree that the depths
/// describe.
pub open spec fn slot_agrees(s: Seq<Slot>, i: int) -> bool {
    let d = depths(s);
    &&& !s[i].removed
    &&& s[i].parent == to_handle(parent_of(d, i))
    &&& s[i].first_child == to_handle(first_child_of(d, i))
    &&& s[i].last_child == to_handle(last_child_of(d, i))
    &&& s[i].previous_sibling == to_handle(previous_sibling_of(d, i))
    &&& s[i].next_sibling == to_handle(next_sibling_of(d, i))
}

/// The slots hold one tree in depth-first order: the depths of the entries are
/// those of a depth-first walk, and every link is the one that follows from
/// them. In particular the depth of a node in the tree is the depth that the
/// walk reported.
#[verifier::opaque]
pub open spec fn is_tree(s: Seq<Slot>) -> bool {
    &&& preorder(depths(s))
    &&& s.len() <= usize::MAX
    &&& forall|i: int| 0 <= i < s.len() ==> #[trigger] slot_agrees(s, i)
}

/// A tree has a root, and its depths are those of a depth-first walk.
pub proof fn lemma_tree_shape(s: Seq<Slot>)
    requires
        is_tree(s),
    ensures
        preorder(depths(s)),
        1 <= s.len() <= usize::MAX,
        depths(s).len() == s.len(),
{
    reveal(is_tree);
}

/// In a tree, the links of a node are handles of nodes of the tree, and they
/// are the links that the depths give.
pub proof fn lemma_tree_node(s: Seq<Slot>, node: usize)
    requires
        is_tree(s),
        1 <= node <= s.len(),
    ensures
        preorder(depths(s)),
        live(s, node),
        slot_agrees(s, node - 1),
        s[node - 1].parent matches Some(k) ==> 1 <= k < node,
        s[node - 1].first_child matches Some(k) ==> node < k <= s.len(),
        s[node - 1].last_child matches Some(k) ==> node < k <= s.len(),
        s[node - 1].next_sibling matches Some(k) ==> node < k <= s.len(),
        s[node - 1].previous_sibling matches Some(k) ==> 1 <= k < node,
{
    reveal(is_tree);
    assert(slot_agrees(s, node - 1));
    lemma_links_in_range(depths(s), node - 1);
}

/// The slots of a tree after a new entry, one level below the node `curr`
/// whose subtree reaches the end of the tree, was stored and appended to it.
pub open spec fn with_child(s: Seq<Slot>, curr: usize, data: FsEntry) -> Seq<Slot> {
    appended(s.push(fresh_slot(data)), curr, (s.len() + 1) as usize)
}

/// Appending a new last node below a node whose subtree reaches the end of the
/// tree gives a tree again: the one whose depth-first order has the new entry
/// at its end.
pub proof fn lemma_with_child(s: Seq<Slot>, curr: usize, data: FsEntry)
    requires
        is_tree(s),
        s.len() < usize::MAX,
        1 <= curr <= s.len(),
        subtree_end(depths(s), curr - 1) == s.len(),
        data.de.depth == depths(s)[curr - 1] + 1,
    ensures
        is_tree(with_child(s, curr, data)),
        depths(with_child(s, curr, data)) == depths(s).push(data.de.depth as int),
        entries(with_child(s, curr, data)) == entries(s).push(data@),
        subtree_end(depths(with_child(s, curr, data)), curr - 1) == s.len() + 1,
        subtree_end(depths(with_child(s, curr, data)), s.len() as int) == s.len() + 1,
{
    reveal(is_tree);
    let n = s.len() as int;
    let c = curr - 1;
    let d = depths(s);
    let dd = data.de.depth as int;
    let s1 = s.push(fresh_slot(data));
    let s2 = with_child(s, curr, data);
    let d2 = d.push(dd);
    lemma_tree_node(s, curr);
    lemma_push_new_node(d, c, dd);
    assert(s2.len() == n + 1);
    assert forall|i: int| 0 <= i < n implies (#[trigger] s2[i]).data == s[i].data by {}
    assert(s2[n].data == data);
    assert(depths(s2) =~= d2);
    assert(entries(s2) =~= entries(s).push(data@));
    let l = s[c].last_child;
    if l is Some {
        lemma_last_child(d, c);
    }
    assert forall|i: int| 0 <= i < s2.len() implies #[trigger] slot_agrees(s2, i) by {
        if i < n {
            assert(slot_agrees(s, i));
            lemma_push_old_node(d, c, dd, i);
        }
    }
}

/// What `arena_append` asks of a tree and a node that was just stored.
pub proof fn lemma_can_append(s: Seq<Slot>, curr: usize, data: FsEntry)
    requires
        is_tree(s),
        s.len() < usize::MAX,
        1 <= curr <= s.len(),
    ensures
        ({
            let s1 = s.push(fresh_slot(data));
            let child = (s.len() + 1) as usize;
            &&& live(s1, curr)
            &&& live(s1, child)
            &&& (s1[curr - 1].first_child is Some <==> s1[curr - 1].last_child is Some)
            &&& (s1[curr - 1].first_child matches Some(f) ==> {
                &&& f != child
                &&& live(s1, f)
                &&& s1[f - 1].parent == Some(curr)
                &&& s1[f - 1].previous_sibling is None
            })
            &&& (s1[curr - 1].last_child matches Some(l) ==> {
                &&& l != child
                &&& live(s1, l)
                &&& s1[l - 1].parent == Some(curr)
                &&& s1[l - 1].next_sibling is None
            })
        }),
{
    let d = depths(s);
    let c = curr - 1;
    let s1 = s.push(fresh_slot(data));
    lemma_tree_node(s, curr);
    assert(s1[c] == s[c]);
    if first_child_of(d, c) is Some {
        lemma_first_child(d, c);
        let f = (c + 2) as usize;
        lemma_tree_node(s, f);
        assert(s1[f - 1] == s[f - 1]);
    }
    if last_child_of(d, c) is Some {
        lemma_last_child(d, c);
        let l = s[c].last_child.unwrap();
        lemma_tree_node(s, l);
        assert(s1[l - 1] == s[l - 1]);
    } else {
        lemma_subtree_end(d, c);
    }
}

/// Stores `data` as a new node and makes it the last child of `node`.
pub(crate) fn add_child_to_tree(tree: &mut Arena<FsEntry>, node: usize, data: FsEntry) -> (new_node:
    usize)
    requires
        is_tree(arena_slots(*old(tree))),
        arena_slots(*old(tree)).len() < usize::MAX,
        1 <= node <= arena_slots(*old(tree)).len(),
        subtree_end(depths(arena_slots(*old(tree))), node - 1) == arena_slots(*old(tree)).len(),
        data.de.depth == depths(arena_slots(*old(tree)))[node - 1] + 1,
    ensures
        new_node == arena_slots(*old(tree)).len() + 1,
        arena_slots(*final(tree)) == with_child(arena_slots(*old(tree)), node, data),
        is_tree(arena_slots(*final(tree))),
{
    proof {
        lemma_can_append(arena_slots(*tree), node, data);
        lemma_with_child(arena_slots(*tree), node, data);
        assert forall|i: int| 0 <= i < arena_slots(*tree).len() implies !(#[trigger] arena_slots(
            *tree,
        )[i]).removed by {
            reveal(is_tree);
            assert(slot_agrees(arena_slots(*tree), i));
        }
    }
    let new_node = arena_new_node(tree, data);
    arena_append(tree, node, new_node);
    new_node
}

/// One step of the search for the row that follows the subtree of a node:
/// where the node `p` has a next sibling, that is the row; where it has none,
/// the subtree of its parent ends where its own does; and where it has no
/// parent either, no row follows.
pub proof fn lemma_step_up(s: Seq<Slot>, p: usize)
    requires
        is_tree(s),
        1 <= p <= s.len(),
    ensures
        !s[p - 1].removed,
        match s[p - 1].next_sibling {
            Some(nx) => 1 <= nx <= s.len() && nx - 1 == subtree_end(depths(s), p - 1),
            None => match s[p - 1].parent {
                Some(q) => 1 <= q < p && subtree_end(depths(s), q - 1) == subtree_end(
                    depths(s),
                    p - 1,
                ),
                None => subtree_end(depths(s), p - 1) == s.len(),
            },
        },
{
    let d = depths(s);
    lemma_tree_shape(s);
    lemma_tree_node(s, p);
    lemma_links_in_range(d, p - 1);
    if next_sibling_of(d, p - 1) is Some {
        lemma_next_sibling(d, p - 1);
    } else if p > 1 {
        lemma_parent(d, p - 1);
        lemma_last_sibling(d, p - 1);
    } else {
        lemma_root_subtree(d);
    }
}

/// One step of the search for the last row of the subtree of a node: the
/// subtree of the last child of `p` ends where its own does, and where it has
/// no child, it is that row itself.
pub proof fn lemma_step_down(s: Seq<Slot>, p: usize)
    requires
        is_tree(s),
        1 <= p <= s.len(),
    ensures
        !s[p - 1].removed,
        match s[p - 1].last_child {
            Some(c) => p < c <= s.len() && subtree_end(depths(s), c - 1) == subtree_end(
                depths(s),
                p - 1,
            ),
            None => subtree_end(depths(s), p - 1) == p,
        },
{
    let d = depths(s);
    lemma_tree_shape(s);
    lemma_tree_node(s, p);
    lemma_links_in_range(d, p - 1);
    lemma_subtree_end(d, p - 1);
    if last_child_of(d, p - 1) is Some {
        lemma_last_child(d, p - 1);
    }
}

} // verus!
