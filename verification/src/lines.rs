//! The projection of the tree into rows: one row for each node, in
//! depth-first order, linked into a list from which folded subtrees are left
//! out.

use vstd::prelude::*;
use std::collections::HashMap;
use std::collections::HashSet;
use indextree::Arena;
use crate::arena::{arena_first_child, arena_last_child, arena_next_sibling, arena_slots, Slot};
use crate::entry::FsEntry;
use crate::links::{depths, is_tree, lemma_tree_node, lemma_tree_shape, to_handle};
use crate::shape::{
    first_child_of, is_last, last_child_of, lemma_child_step, lemma_first_child,
    lemma_inner_subtree, lemma_leaf_subtree, lemma_level, lemma_links_in_range, lemma_parent,
    lemma_root_subtree, lemma_subtree_end, level, next_sibling_of, parent_of, preorder,
    subtree_end,
};

verus! {

/// One piece of the drawing in front of an entry's name.
#[derive(Debug, Clone, Copy, PartialEq, Eq, Structural)]
pub enum PrefixPiece {
    /// Passes an ancestor that has further siblings below.
    BarIndent,
    /// Passes an ancestor that was the last of its siblings.
    BlankIndent,
    /// Leads to an entry that has further siblings below.
    MidBranch,
    /// Leads to an entry that is the last of its siblings.
    EndBranch,
}

/// The indent pieces in front of the children of node `i`: one for each
/// ancestor of theirs below the root, the outermost first.
pub open spec fn indents_below(d: Seq<int>, i: int) -> Seq<PrefixPiece>
    decreases i,
{
    let p = parent_of(d, i);
    if i <= 0 || p is None || p.unwrap() >= i || p.unwrap() < 0 {
        Seq::empty()
    } else {
        indents_below(d, p.unwrap()).push(
            if is_last(d, i) {
                PrefixPiece::BlankIndent
            } else {
                PrefixPiece::BarIndent
            },
        )
    }
}

/// The prefix of the line of node `i`: the indents in front of its parent's
/// children, then the branch that leads to it. The root has none.
pub open spec fn prefix_of(d: Seq<int>, i: int) -> Seq<PrefixPiece> {
    match parent_of(d, i) {
        Some(p) => indents_below(d, p).push(
            if is_last(d, i) {
                PrefixPiece::EndBranch
            } else {
                PrefixPiece::MidBranch
            },
        ),
        None => Seq::empty(),
    }
}

/// The indent that continues a branch on the rows below it.
pub open spec fn indent_under(branch: PrefixPiece) -> PrefixPiece {
    match branch {
        PrefixPiece::EndBranch => PrefixPiece::BlankIndent,
        PrefixPiece::BlankIndent => PrefixPiece::BlankIndent,
        _ => PrefixPiece::BarIndent,
    }
}

/// One row of the display: a node, the drawing in front of its name, and its
/// neighbours in the list of rows.
#[derive(Debug)]
pub struct TreeLine {
    pub(crate) node: usize,
    pub(crate) prefix: Vec<PrefixPiece>,
    pub(crate) prev: Option<usize>,
    pub(crate) next: usize,
}

/// A row of the display as a value.
pub struct LineView {
    /// The handle of the node that the row shows.
    pub node: usize,
    pub prefix: Seq<PrefixPiece>,
    /// The row before this one in the list; the first row has none.
    pub prev: Option<usize>,
    /// The row after this one in the list, or the number of rows.
    pub next: usize,
}

impl View for TreeLine {
    type V = LineView;

    open(crate) spec fn view(&self) -> LineView {
        LineView { node: self.node, prefix: self.prefix@, prev: self.prev, next: self.next }
    }
}

impl TreeLine {
    /// The handle of the node that the row shows.
    pub fn node(&self) -> (node: usize)
        ensures
            node == self@.node,
    {
        self.node
    }

    /// The pieces of the drawing in front of the name.
    pub fn prefix(&self) -> (prefix: &Vec<PrefixPiece>)
        ensures
            prefix@ == self@.prefix,
    {
        &self.prefix
    }

    /// The row before this one in the list.
    pub fn prev(&self) -> (prev: Option<usize>)
        ensures
            prev == self@.prev,
    {
        self.prev
    }

    /// The row after this one in the list, or the number of rows.
    pub fn next(&self) -> (next: usize)
        ensures
            next == self@.next,
    {
        self.next
    }
}

/// The row of node `i` as it is first drawn: linked to the rows next to it.
pub open spec fn drawn_line(d: Seq<int>, i: int) -> LineView {
    LineView {
        node: (i + 1) as usize,
        prefix: prefix_of(d, i),
        prev: if i == 0 {
            None
        } else {
            Some((i - 1) as usize)
        },
        next: (i + 1) as usize,
    }
}

/// The rows of a tree and which of them are folded.
pub struct LinesView {
    pub lines: Seq<LineView>,
    pub folded: Set<usize>,
}

impl LinesView {
    /// The rows belong to the tree with depths `d`: row `i` shows node `i`
    /// with its prefix; it leads on to the row below it, or past its subtree
    /// if it is folded; every row but the first leads back to an earlier row.
    #[verifier::opaque]
    pub open spec fn wf(self, d: Seq<int>) -> bool {
        &&& self.lines.len() == d.len()
        &&& forall|i: int|
            0 <= i < d.len() ==> {
                let l = #[trigger] self.lines[i];
                &&& l.node == i + 1
                &&& l.prefix == prefix_of(d, i)
                &&& l.next == (if self.folded.contains(i as usize) {
                    subtree_end(d, i)
                } else {
                    i + 1
                })
                &&& (i == 0 ==> l.prev is None)
                &&& (i > 0 ==> l.prev is Some && l.prev.unwrap() < i)
            }
        &&& forall|k: usize| self.folded.contains(k) ==> k < d.len()
    }

    /// The rows after row `l` has been folded: it leads on to the row that
    /// follows its subtree, which leads back to it.
    pub open spec fn fold(self, d: Seq<int>, l: int) -> LinesView {
        let m = subtree_end(d, l);
        let lines = if m < d.len() {
            self.lines.update(m, LineView { prev: Some(l as usize), ..self.lines[m] })
        } else {
            self.lines
        };
        LinesView {
            lines: lines.update(l, LineView { next: m as usize, ..lines[l] }),
            folded: self.folded.insert(l as usize),
        }
    }

    /// The rows after row `l` has been unfolded: it leads on to the row below
    /// it, and the row that it led to leads back to the last row of its
    /// subtree. A row that is not folded stays as it is.
    pub open spec fn unfold(self, d: Seq<int>, l: int) -> LinesView {
        if !self.folded.contains(l as usize) {
            self
        } else {
            let s = self.lines[l].next as int;
            let lines = if s < d.len() {
                self.lines.update(
                    s,
                    LineView { prev: Some((subtree_end(d, l) - 1) as usize), ..self.lines[s] },
                )
            } else {
                self.lines
            };
            LinesView {
                lines: lines.update(l, LineView { next: (l + 1) as usize, ..lines[l] }),
                folded: self.folded.remove(l as usize),
            }
        }
    }
}

/// The rows of a tree as they are first drawn: every node once, in
/// depth-first order, nothing folded.
pub open spec fn drawn(d: Seq<int>) -> LinesView {
    LinesView { lines: Seq::new(d.len(), |i: int| drawn_line(d, i)), folded: Set::empty() }
}

/// Rows of a tree: there is one for each node.
pub proof fn lemma_lines_len(v: LinesView, d: Seq<int>)
    requires
        v.wf(d),
    ensures
        v.lines.len() == d.len(),
{
    reveal(LinesView::wf);
}

/// What holds of each row of a tree.
pub proof fn lemma_line(v: LinesView, d: Seq<int>, i: int)
    requires
        v.wf(d),
        0 <= i < d.len(),
    ensures
        v.lines.len() == d.len(),
        v.lines[i].node == i + 1,
        v.lines[i].prefix == prefix_of(d, i),
        i < v.lines[i].next <= d.len(),
        v.lines[i].next == (if v.folded.contains(i as usize) {
            subtree_end(d, i)
        } else {
            i + 1
        }),
        i == 0 ==> v.lines[i].prev is None,
        i > 0 ==> v.lines[i].prev is Some && v.lines[i].prev.unwrap() < i,
{
    reveal(LinesView::wf);
    lemma_subtree_end(d, i);
}

/// The rows of a tree as they are first drawn are rows of that tree.
pub proof fn lemma_drawn_wf(d: Seq<int>)
    requires
        d.len() <= usize::MAX,
    ensures
        drawn(d).wf(d),
{
    reveal(LinesView::wf);
}

/// Folding a row of a tree gives rows of that tree.
pub proof fn lemma_fold_wf(v: LinesView, d: Seq<int>, l: int)
    requires
        v.wf(d),
        d.len() <= usize::MAX,
        0 <= l < d.len(),
    ensures
        v.fold(d, l).wf(d),
{
    reveal(LinesView::wf);
    lemma_subtree_end(d, l);
    let w = v.fold(d, l);
    assert forall|i: int| 0 <= i < d.len() implies ({
        let x = #[trigger] w.lines[i];
        &&& x.node == i + 1
        &&& x.prefix == prefix_of(d, i)
        &&& x.next == (if w.folded.contains(i as usize) {
            subtree_end(d, i)
        } else {
            i + 1
        })
        &&& (i == 0 ==> x.prev is None)
        &&& (i > 0 ==> x.prev is Some && x.prev.unwrap() < i)
    }) by {
        let y = v.lines[i];
    }
}

/// Unfolding a row of a tree gives rows of that tree.
pub proof fn lemma_unfold_wf(v: LinesView, d: Seq<int>, l: int)
    requires
        v.wf(d),
        d.len() <= usize::MAX,
        0 <= l < d.len(),
    ensures
        v.unfold(d, l).wf(d),
{
    reveal(LinesView::wf);
    lemma_subtree_end(d, l);
    let w = v.unfold(d, l);
    if v.folded.contains(l as usize) {
        let y = v.lines[l];
        assert forall|i: int| 0 <= i < d.len() implies ({
            let x = #[trigger] w.lines[i];
            &&& x.node == i + 1
            &&& x.prefix == prefix_of(d, i)
            &&& x.next == (if w.folded.contains(i as usize) {
                subtree_end(d, i)
            } else {
                i + 1
            })
            &&& (i == 0 ==> x.prev is None)
            &&& (i > 0 ==> x.prev is Some && x.prev.unwrap() < i)
        }) by {
            let y = v.lines[i];
        }
    }
}

/// Folding a row and then unfolding it gives back the rows as they were, each
/// of them, if the row was not folded before and the row that follows its
/// subtree led back to the last row of that subtree.
pub proof fn lemma_fold_unfold(v: LinesView, d: Seq<int>, l: int)
    requires
        v.wf(d),
        d.len() <= usize::MAX,
        0 <= l < d.len(),
        !v.folded.contains(l as usize),
        subtree_end(d, l) < d.len() ==> v.lines[subtree_end(d, l)].prev == Some(
            (subtree_end(d, l) - 1) as usize,
        ),
    ensures
        v.fold(d, l).unfold(d, l) == v,
{
    reveal(LinesView::wf);
    lemma_subtree_end(d, l);
    let w = v.fold(d, l).unfold(d, l);
    let x = v.lines[l];
    assert(w.lines =~= v.lines);
    assert(w.folded =~= v.folded);
}

/// In the rows as they are first drawn, folding any row and unfolding it
/// again gives back the rows as they were drawn.
pub proof fn lemma_fold_unfold_drawn(d: Seq<int>, l: int)
    requires
        d.len() <= usize::MAX,
        0 <= l < d.len(),
    ensures
        drawn(d).fold(d, l).unfold(d, l) == drawn(d),
{
    lemma_drawn_wf(d);
    lemma_subtree_end(d, l);
    lemma_fold_unfold(drawn(d), d, l);
}

/// There is one indent in front of a node's children for each level that the
/// node lies below the root.
pub proof fn lemma_indents_len(d: Seq<int>, i: int)
    requires
        preorder(d),
        0 <= i < d.len(),
    ensures
        indents_below(d, i).len() == d[i],
        forall|k: int|
            0 <= k < d[i] ==> #[trigger] indents_below(d, i)[k] == PrefixPiece::BarIndent
                || indents_below(d, i)[k] == PrefixPiece::BlankIndent,
    decreases i,
{
    if i > 0 {
        lemma_parent(d, i);
        lemma_indents_len(d, parent_of(d, i).unwrap());
    }
}

/// The prefix of a node's row has as many pieces as the node lies levels
/// below the root, which is the depth that the walk reported: indents, then
/// one branch. The prefix of a child is one piece longer than that of its
/// parent; it agrees with it up to the parent's branch, which it continues
/// as an indent.
pub proof fn lemma_prefix_depth(d: Seq<int>, i: int)
    requires
        preorder(d),
        0 <= i < d.len(),
    ensures
        prefix_of(d, i).len() == level(d, i),
        prefix_of(d, i).len() == d[i],
        i > 0 ==> prefix_of(d, i).last() == (if is_last(d, i) {
            PrefixPiece::EndBranch
        } else {
            PrefixPiece::MidBranch
        }),
        forall|k: int|
            0 <= k < d[i] - 1 ==> #[trigger] prefix_of(d, i)[k] == PrefixPiece::BarIndent
                || prefix_of(d, i)[k] == PrefixPiece::BlankIndent,
        parent_of(d, i) is Some && parent_of(d, i).unwrap() > 0 ==> ({
            let p = parent_of(d, i).unwrap();
            &&& prefix_of(d, i).len() == prefix_of(d, p).len() + 1
            &&& prefix_of(d, i).take(d[p] - 1) == prefix_of(d, p).drop_last()
            &&& prefix_of(d, i)[d[p] - 1] == indent_under(prefix_of(d, p).last())
        }),
{
    lemma_level(d, i);
    if i > 0 {
        lemma_parent(d, i);
        let p = parent_of(d, i).unwrap();
        lemma_indents_len(d, p);
        if p > 0 {
            lemma_parent(d, p);
            let q = parent_of(d, p).unwrap();
            lemma_indents_len(d, q);
            assert(prefix_of(d, i).take(d[p] - 1) =~= prefix_of(d, p).drop_last());
        }
    }
}

/// The prefix of a child's row and the indents below the child, from the
/// indents below its parent.
pub proof fn lemma_child_prefix(d: Seq<int>, r: int, c: int)
    requires
        0 <= r < c < d.len(),
        parent_of(d, c) == Some(r),
    ensures
        prefix_of(d, c) == indents_below(d, r).push(
            if is_last(d, c) {
                PrefixPiece::EndBranch
            } else {
                PrefixPiece::MidBranch
            },
        ),
        indents_below(d, c) == indents_below(d, r).push(
            if is_last(d, c) {
                PrefixPiece::BlankIndent
            } else {
                PrefixPiece::BarIndent
            },
        ),
{
}

/// The projection of a tree into rows: a backing array in depth-first order
/// that never changes its order, a doubly linked list through it, and the set
/// of folded rows.
#[derive(Debug)]
pub struct TreeLines {
    pub(crate) inds: HashMap<usize, usize>,
    pub(crate) lines: Vec<TreeLine>,
    pub(crate) folded: HashSet<usize>,
    pub(crate) count: usize,
}

impl View for TreeLines {
    type V = LinesView;

    open(crate) spec fn view(&self) -> LinesView {
        LinesView { lines: self.lines@.map_values(|l: TreeLine| l@), folded: self.folded@ }
    }
}

impl TreeLines {
    /// The bookkeeping beside the rows is in order: the count is the number of
    /// rows, and the index maps each node's handle to its row.
    pub open(crate) spec fn indexed(&self) -> bool {
        &&& self.count == self.lines.len()
        &&& self.inds@.dom() =~= Set::new(|h: usize| 1 <= h <= self.count)
        &&& forall|h: usize| 1 <= h <= self.count ==> #[trigger] self.inds@[h] == h - 1
    }

    /// The rows are those of the tree with depths `d`.
    pub open(crate) spec fn wf(&self, d: Seq<int>) -> bool {
        self.indexed() && self@.wf(d)
    }

    /// The first rows of the tree with depths `d` have been drawn, and no
    /// others.
    pub open(crate) spec fn drawing(&self, d: Seq<int>) -> bool {
        &&& self.indexed()
        &&& self.count <= d.len()
        &&& self@.lines == drawn(d).lines.take(self.count as int)
        &&& self@.folded == Set::<usize>::empty()
    }

    pub(crate) fn new() -> (r: Self)
        ensures
            r.count == 0,
            r@.lines == Seq::<LineView>::empty(),
            r@.folded == Set::<usize>::empty(),
            r.indexed(),
    {
        broadcast use vstd::std_specs::hash::group_hash_axioms;

        let r = TreeLines {
            inds: HashMap::new(),
            lines: Vec::new(),
            folded: HashSet::new(),
            count: 0,
        };
        assert(r@.lines =~= Seq::<LineView>::empty());
        r
    }

    /// Adds the row of `node` below the rows that are there.
    fn add(&mut self, node: usize, prefix: Vec<PrefixPiece>)
        requires
            old(self).indexed(),
            old(self).count < usize::MAX,
            node == old(self).count + 1,
        ensures
            final(self).indexed(),
            final(self).count == old(self).count + 1,
            final(self)@.folded == old(self)@.folded,
            final(self)@.lines == old(self)@.lines.push(
                LineView {
                    node,
                    prefix: prefix@,
                    prev: if old(self).count == 0 {
                        None
                    } else {
                        Some((old(self).count - 1) as usize)
                    },
                    next: (old(self).count + 1) as usize,
                },
            ),
    {
        broadcast use vstd::std_specs::hash::group_hash_axioms;

        self.inds.insert(node, self.count);
        self.lines.push(
            TreeLine {
                node,
                prefix,
                prev: if self.count == 0 {
                    None
                } else {
                    Some(self.count - 1)
                },
                next: self.count + 1,
            },
        );
        self.count += 1;
        assert(final(self)@.lines =~= old(self)@.lines.push(final(self).lines@.last()@));
    }

    /// Folds row `l`, whose subtree ends before row `m`.
    pub(crate) fn fold_at(&mut self, d: Ghost<Seq<int>>, l: usize, m: usize)
        requires
            old(self).wf(d@),
            d@.len() <= usize::MAX,
            l < d@.len(),
            m == subtree_end(d@, l as int),
        ensures
            final(self).wf(d@),
            final(self)@ == old(self)@.fold(d@, l as int),
    {
        broadcast use vstd::std_specs::hash::group_hash_axioms;

        proof {
            lemma_lines_len(self@, d@);
            lemma_fold_wf(self@, d@, l as int);
        }
        // If the new next is in the tree, set its previous to the folded row
        if m < self.count {
            self.set_prev(m, l);
        }
        // Mark this line folded
        self.folded.insert(l);
        // Set the row's next to the new next
        self.set_next(l, m);
        assert(self@.lines =~= old(self)@.fold(d@, l as int).lines);
    }

    /// Unfolds row `l`, which is folded and whose subtree ends with row
    /// `last`.
    pub(crate) fn unfold_at(&mut self, d: Ghost<Seq<int>>, l: usize, last: usize)
        requires
            old(self).wf(d@),
            d@.len() <= usize::MAX,
            l < d@.len(),
            old(self)@.folded.contains(l),
            last == subtree_end(d@, l as int) - 1,
        ensures
            final(self).wf(d@),
            final(self)@ == old(self)@.unfold(d@, l as int),
    {
        broadcast use vstd::std_specs::hash::group_hash_axioms;

        proof {
            lemma_lines_len(self@, d@);
            lemma_unfold_wf(self@, d@, l as int);
        }
        // If the row's next is in the tree, set its previous to the new previous
        let n_ind = self.lines[l].next;
        if n_ind < self.count {
            self.set_prev(n_ind, last);
        }
        // Mark this line as unfolded
        self.folded.remove(&l);
        // Set the row's next to the row below it
        self.set_next(l, l + 1);
        assert(self@.lines =~= old(self)@.unfold(d@, l as int).lines);
    }

    /// Makes row `i` lead back to row `prev`.
    fn set_prev(&mut self, i: usize, prev: usize)
        requires
            i < old(self).lines.len(),
        ensures
            final(self)@ == (LinesView {
                lines: old(self)@.lines.update(
                    i as int,
                    LineView { prev: Some(prev), ..old(self)@.lines[i as int] },
                ),
                ..old(self)@
            }),
            final(self).inds == old(self).inds,
            final(self).count == old(self).count,
            final(self).lines.len() == old(self).lines.len(),
    {
        self.lines[i].prev = Some(prev);
        assert(self@.lines =~= old(self)@.lines.update(
            i as int,
            LineView { prev: Some(prev), ..old(self)@.lines[i as int] },
        ));
    }

    /// Makes row `i` lead on to row `next`.
    fn set_next(&mut self, i: usize, next: usize)
        requires
            i < old(self).lines.len(),
        ensures
            final(self)@ == (LinesView {
                lines: old(self)@.lines.update(
                    i as int,
                    LineView { next, ..old(self)@.lines[i as int] },
                ),
                ..old(self)@
            }),
            final(self).inds == old(self).inds,
            final(self).count == old(self).count,
            final(self).lines.len() == old(self).lines.len(),
    {
        self.lines[i].next = next;
        assert(self@.lines =~= old(self)@.lines.update(
            i as int,
            LineView { next, ..old(self)@.lines[i as int] },
        ));
    }
}

/// Line `i` shows a node of the arena that was not removed.
pub open spec fn live_line(s: Seq<Slot>, i: int) -> bool {
    0 <= i < s.len() && !s[i].removed
}

/// The prefix of a line: the indents in force, then the branch to the entry.
fn prefix_for(indents: &Vec<PrefixPiece>, last: bool) -> (prefix: Vec<PrefixPiece>)
    ensures
        prefix@ == indents@.push(
            if last {
                PrefixPiece::EndBranch
            } else {
                PrefixPiece::MidBranch
            },
        ),
{
    let mut prefix: Vec<PrefixPiece> = Vec::new();
    let mut i: usize = 0;
    while i < indents.len()
        invariant
            i <= indents.len(),
            prefix@ == indents@.take(i as int),
        decreases indents.len() - i,
    {
        prefix.push(indents[i]);
        i += 1;
        assert(prefix@ =~= indents@.take(i as int));
    }
    assert(indents@.take(i as int) =~= indents@);
    prefix.push(if last { PrefixPiece::EndBranch } else { PrefixPiece::MidBranch });
    prefix
}

/// What holds of the next child `c` of node `r` when its row is about to be
/// drawn.
proof fn lemma_draw_child(s: Seq<Slot>, r: int, c: int)
    requires
        is_tree(s),
        0 <= r < s.len(),
        r < c < subtree_end(depths(s), r),
        parent_of(depths(s), c) == Some(r),
    ensures
        c < s.len(),
        live_line(s, c),
        (s[r].last_child == Some((c + 1) as usize)) == is_last(depths(s), c),
        s[c].next_sibling == (if subtree_end(depths(s), c) < subtree_end(depths(s), r) {
            Some((subtree_end(depths(s), c) + 1) as usize)
        } else {
            None
        }),
        c < subtree_end(depths(s), c) <= subtree_end(depths(s), r),
        subtree_end(depths(s), c) < subtree_end(depths(s), r) ==> parent_of(
            depths(s),
            subtree_end(depths(s), c),
        ) == Some(r),
{
    let d = depths(s);
    lemma_tree_shape(s);
    lemma_subtree_end(d, r);
    lemma_child_step(d, r, c);
    assert(s[r].last_child == to_handle(last_child_of(d, r)) && !s[c].removed && s[c].next_sibling
        == to_handle(next_sibling_of(d, c))) by {
        lemma_tree_node(s, (c + 1) as usize);
        lemma_tree_node(s, (r + 1) as usize);
    }
    assert(last_child_of(d, r) matches Some(k) ==> r < k < d.len()) by {
        lemma_links_in_range(d, r);
    }
}

/// What holds of node `r` when the rows of its descendants are about to be
/// drawn.
proof fn lemma_draw_first(s: Seq<Slot>, r: int)
    requires
        is_tree(s),
        0 <= r < s.len(),
    ensures
        live_line(s, r),
        r < subtree_end(depths(s), r) <= s.len(),
        s[r].first_child == (if r + 1 < subtree_end(depths(s), r) {
            Some((r + 2) as usize)
        } else {
            None
        }),
        r + 1 < subtree_end(depths(s), r) ==> parent_of(depths(s), r + 1) == Some(r),
{
    let d = depths(s);
    lemma_tree_shape(s);
    lemma_tree_node(s, (r + 1) as usize);
    lemma_subtree_end(d, r);
    if first_child_of(d, r) is Some {
        lemma_first_child(d, r);
        lemma_inner_subtree(d, r);
    } else {
        lemma_leaf_subtree(d, r);
    }
}

/// Draws the rows of the descendants of `root`, whose own row is the last one
/// drawn so far, below it. `indents` holds the indents in force for the
/// children of `root`; the last of them is dropped at the end.
fn draw_from(
    tree_lines: &mut TreeLines,
    tree: &Arena<FsEntry>,
    root: usize,
    indents: &mut Vec<PrefixPiece>,
)
    requires
        is_tree(arena_slots(*tree)),
        1 <= root <= arena_slots(*tree).len(),
        old(tree_lines).drawing(depths(arena_slots(*tree))),
        old(tree_lines).count == root,
        old(indents)@ == indents_below(depths(arena_slots(*tree)), root - 1),
    ensures
        final(tree_lines).drawing(depths(arena_slots(*tree))),
        final(tree_lines).count == subtree_end(depths(arena_slots(*tree)), root - 1),
        final(indents)@ == (if old(indents)@.len() > 0 {
            old(indents)@.drop_last()
        } else {
            old(indents)@
        }),
    decreases arena_slots(*tree).len() - root,
{
    let ghost s = arena_slots(*tree);
    let ghost d = depths(s);
    let ghost r = root - 1;
    let ghost e = subtree_end(d, r);
    proof {
        lemma_tree_shape(s);
        lemma_draw_first(s, r);
    }
    let mut next = arena_first_child(tree, root);
    while next.is_some()
        invariant
            s == arena_slots(*tree),
            d == depths(s),
            r == root - 1,
            e == subtree_end(d, r),
            is_tree(s),
            1 <= root <= s.len(),
            e <= s.len() <= usize::MAX,
            tree_lines.drawing(d),
            r < tree_lines.count <= e,
            next == (if tree_lines.count < e {
                Some((tree_lines.count + 1) as usize)
            } else {
                None
            }),
            tree_lines.count < e ==> parent_of(d, tree_lines.count as int) == Some(r),
            indents@ == indents_below(d, r),
        decreases e - tree_lines.count,
    {
        let child = next.unwrap();
        let ghost c = child - 1;
        proof {
            lemma_draw_child(s, r, c);
            lemma_child_prefix(d, r, c);
            lemma_draw_first(s, r);
        }
        let last = match arena_last_child(tree, root) {
            Some(l) => l == child,
            None => false,
        };
        let prefix = prefix_for(indents, last);
        tree_lines.add(child, prefix);
        assert(tree_lines.drawing(d)) by {
            assert(tree_lines@.lines.last() == drawn_line(d, c));
            assert(tree_lines@.lines =~= drawn(d).lines.take(c + 1));
        }
        indents.push(if last { PrefixPiece::BlankIndent } else { PrefixPiece::BarIndent });
        draw_from(tree_lines, tree, child, indents);
        assert(indents@ == indents_below(d, r)) by {
            assert(indents@ =~= indents_below(d, r));
        }
        next = arena_next_sibling(tree, child);
    }
    indents.pop();
}

/// Draws every node of a tree once, in depth-first order, the root first.
pub(crate) fn draw(tree: &Arena<FsEntry>, root: usize) -> (tree_lines: TreeLines)
    requires
        is_tree(arena_slots(*tree)),
        root == 1,
    ensures
        tree_lines.wf(depths(arena_slots(*tree))),
        tree_lines@ == drawn(depths(arena_slots(*tree))),
{
    let ghost d = depths(arena_slots(*tree));
    proof {
        lemma_tree_shape(arena_slots(*tree));
    }
    let mut tree_lines = TreeLines::new();
    tree_lines.add(root, Vec::new());
    assert(tree_lines@.lines =~= drawn(d).lines.take(1));
    let mut indents: Vec<PrefixPiece> = Vec::new();
    draw_from(&mut tree_lines, tree, root, &mut indents);
    proof {
        lemma_root_subtree(d);
        assert(tree_lines@.lines =~= drawn(d).lines);
        lemma_drawn_wf(d);
    }
    tree_lines
}

} // verus!
