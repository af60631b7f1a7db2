//! The node store: an `indextree` arena, seen through integer handles.
//!
//! The arena numbers its nodes from one, in the order of their creation; that
//! number is the handle by which the rest of the library names a node. Nothing
//! in this file is proved: each function states what the `indextree` call in
//! its body does to the arena.

use vstd::prelude::*;
use indextree::Arena;
use core::num::NonZeroUsize;
use crate::entry::FsEntry;

verus! {

#[verifier::external_type_specification]
#[verifier::external_body]
#[verifier::reject_recursive_types(T)]
pub struct ExArena<T>(indextree::Arena<T>);

/// What the arena holds for one node: its data, its five links, each given as
/// the handle of the node it points at, and whether the node was removed. Of
/// a node that was removed, nothing but that is of account.
pub struct Slot {
    pub parent: Option<usize>,
    pub previous_sibling: Option<usize>,
    pub next_sibling: Option<usize>,
    pub first_child: Option<usize>,
    pub last_child: Option<usize>,
    pub removed: bool,
    pub data: FsEntry,
}

/// The slots of an arena in storage order: the node with handle `h` is at
/// position `h - 1`.
pub uninterp spec fn arena_slots(a: Arena<FsEntry>) -> Seq<Slot>;

/// `node` is the handle of a node that is in the arena and was not removed.
pub open spec fn live(s: Seq<Slot>, node: usize) -> bool {
    1 <= node <= s.len() && !s[node - 1].removed
}

/// No node of the arena was removed.
pub open spec fn none_removed(s: Seq<Slot>) -> bool {
    forall|i: int| 0 <= i < s.len() ==> !(#[trigger] s[i]).removed
}

/// The slot of a node that was just created: it has no links.
pub open spec fn fresh_slot(data: FsEntry) -> Slot {
    Slot {
        parent: None,
        previous_sibling: None,
        next_sibling: None,
        first_child: None,
        last_child: None,
        removed: false,
        data,
    }
}

/// The slots after `child`, a node without links, has become the last child of
/// `parent`.
pub open spec fn appended(s: Seq<Slot>, parent: usize, child: usize) -> Seq<Slot> {
    let last = s[parent - 1].last_child;
    let s1 = match last {
        Some(l) => s.update(l - 1, Slot { next_sibling: Some(child), ..s[l - 1] }),
        None => s,
    };
    let s2 = s1.update(
        child - 1,
        Slot { parent: Some(parent), previous_sibling: last, ..s1[child - 1] },
    );
    let p = s2[parent - 1];
    s2.update(
        parent - 1,
        Slot {
            first_child: if p.first_child is Some {
                p.first_child
            } else {
                Some(child)
            },
            last_child: Some(child),
            ..p
        },
    )
}

/// `Arena::new`: an arena without nodes.
#[verifier::external_body]
pub(crate) fn arena_new() -> (a: Arena<FsEntry>)
    ensures
        arena_slots(a) == Seq::<Slot>::empty(),
{
    Arena::new()
}

/// `Arena::new_node`: in an arena from which no node was removed, the new node
/// takes the next free handle and has no links.
#[verifier::external_body]
pub(crate) fn arena_new_node(a: &mut Arena<FsEntry>, data: FsEntry) -> (node: usize)
    requires
        none_removed(arena_slots(*old(a))),
        arena_slots(*old(a)).len() < usize::MAX,
    ensures
        node == arena_slots(*old(a)).len() + 1,
        arena_slots(*final(a)) == arena_slots(*old(a)).push(fresh_slot(data)),
{
    usize::from(a.new_node(data))
}

/// `NodeId::append`: a node that has neither parent, siblings nor children
/// becomes the last child of another node, whose previous last child, if
/// there is one, becomes its previous sibling. No other link changes. The
/// parent's first and last child must point back at it and be the ends of its
/// chain of children: the arena checks as much in a debug build.
#[verifier::external_body]
pub(crate) fn arena_append(a: &mut Arena<FsEntry>, parent: usize, child: usize)
    requires
        parent != child,
        live(arena_slots(*old(a)), parent),
        live(arena_slots(*old(a)), child),
        arena_slots(*old(a))[child - 1].parent is None,
        arena_slots(*old(a))[child - 1].previous_sibling is None,
        arena_slots(*old(a))[child - 1].next_sibling is None,
        arena_slots(*old(a))[child - 1].first_child is None,
        arena_slots(*old(a))[parent - 1].first_child is Some <==> arena_slots(
            *old(a),
        )[parent - 1].last_child is Some,
        arena_slots(*old(a))[parent - 1].first_child matches Some(f) ==> {
            &&& f != child
            &&& live(arena_slots(*old(a)), f)
            &&& arena_slots(*old(a))[f - 1].parent == Some(parent)
            &&& arena_slots(*old(a))[f - 1].previous_sibling is None
        },
        arena_slots(*old(a))[parent - 1].last_child matches Some(l) ==> {
            &&& l != child
            &&& live(arena_slots(*old(a)), l)
            &&& arena_slots(*old(a))[l - 1].parent == Some(parent)
            &&& arena_slots(*old(a))[l - 1].next_sibling is None
        },
    ensures
        arena_slots(*final(a)) == appended(arena_slots(*old(a)), parent, child),
{
    let p = a.get_node_id_at(NonZeroUsize::new(parent).unwrap()).unwrap();
    let c = a.get_node_id_at(NonZeroUsize::new(child).unwrap()).unwrap();
    p.append(c, a);
}

/// `Node::get`: the data of a node.
#[verifier::external_body]
pub(crate) fn arena_data(a: &Arena<FsEntry>, node: usize) -> (data: &FsEntry)
    requires
        live(arena_slots(*a), node),
    ensures
        *data == arena_slots(*a)[node - 1].data,
{
    let id = a.get_node_id_at(NonZeroUsize::new(node).unwrap()).unwrap();
    a[id].get()
}

/// `Node::parent`: the parent of a node.
#[verifier::external_body]
pub(crate) fn arena_parent(a: &Arena<FsEntry>, node: usize) -> (r: Option<usize>)
    requires
        live(arena_slots(*a), node),
    ensures
        r == arena_slots(*a)[node - 1].parent,
{
    let id = a.get_node_id_at(NonZeroUsize::new(node).unwrap()).unwrap();
    a[id].parent().map(usize::from)
}

/// `Node::first_child`: the first child of a node.
#[verifier::external_body]
pub(crate) fn arena_first_child(a: &Arena<FsEntry>, node: usize) -> (r: Option<usize>)
    requires
        live(arena_slots(*a), node),
    ensures
        r == arena_slots(*a)[node - 1].first_child,
{
    let id = a.get_node_id_at(NonZeroUsize::new(node).unwrap()).unwrap();
    a[id].first_child().map(usize::from)
}

/// `Node::last_child`: the last child of a node.
#[verifier::external_body]
pub(crate) fn arena_last_child(a: &Arena<FsEntry>, node: usize) -> (r: Option<usize>)
    requires
        live(arena_slots(*a), node),
    ensures
        r == arena_slots(*a)[node - 1].last_child,
{
    let id = a.get_node_id_at(NonZeroUsize::new(node).unwrap()).unwrap();
    a[id].last_child().map(usize::from)
}

/// `Node::previous_sibling`: the previous sibling of a node.
#[verifier::external_body]
pub(crate) fn arena_previous_sibling(a: &Arena<FsEntry>, node: usize) -> (r: Option<usize>)
    requires
        live(arena_slots(*a), node),
    ensures
        r == arena_slots(*a)[node - 1].previous_sibling,
{
    let id = a.get_node_id_at(NonZeroUsize::new(node).unwrap()).unwrap();
    a[id].previous_sibling().map(usize::from)
}

/// `Node::next_sibling`: the next sibling of a node.
#[verifier::external_body]
pub(crate) fn arena_next_sibling(a: &Arena<FsEntry>, node: usize) -> (r: Option<usize>)
    requires
        live(arena_slots(*a), node),
    ensures
        r == arena_slots(*a)[node - 1].next_sibling,
{
    let id = a.get_node_id_at(NonZeroUsize::new(node).unwrap()).unwrap();
    a[id].next_sibling().map(usize::from)
}

} // verus!
