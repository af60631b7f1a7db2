//! The tree of entries, its projection into lines, and the focus that moves
//! over it.

use vstd::prelude::*;
use vstd::string::*;
use std::collections::HashMap;
use indextree::Arena;
use crate::arena::{
    arena_data, arena_first_child, arena_last_child, arena_next_sibling, arena_parent,
    arena_previous_sibling, arena_slots, Slot,
};
use crate::entry::{EntryType, FileType, FsEntry, FsEntryView, WalkItem};
use crate::fs::{built, dirs_in, files_in, fs_to_tree, lemma_dirs_push, BuildError};
use crate::lines::{
    draw, drawn, lemma_fold_unfold, lemma_fold_wf, lemma_lines_len, lemma_unfold_wf, LinesView,
    TreeLine, TreeLines,
};
use crate::links::{
    depths, entries, entry_depths, is_tree, lemma_entry_depths, lemma_step_down, lemma_step_up,
    lemma_tree_node, lemma_tree_shape,
};
use crate::options::FsOptions;
use crate::shape::{
    first_child_of, lemma_links_in_range, lemma_previous_sibling, lemma_subtree_end,
    next_sibling_of, parent_of, preorder, previous_sibling_of, subtree_end,
};
use crate::text::{decimal, to_decimal};

verus! {

/// The tree with its focus and its rows, as a value.
pub struct TreeView {
    /// The entries of the nodes in depth-first order: the node with handle
    /// `h` is at position `h - 1` and is shown on the row with that index.
    pub entries: Seq<FsEntryView>,
    /// The handle of the node in focus.
    pub focused: usize,
    /// For a node that the focus left upwards, the child that it came from.
    pub focused_child: Map<usize, usize>,
    pub lines: LinesView,
    pub n_files: usize,
    pub n_dirs: usize,
}

impl TreeView {
    /// The depths of the nodes in depth-first order.
    pub open spec fn depths(self) -> Seq<int> {
        entry_depths(self.entries)
    }

    /// The row of the node in focus.
    pub open spec fn focused_line(self) -> int {
        self.focused - 1
    }

    /// The entries form a tree, the rows are its rows, the focus is on one of
    /// its nodes, and on the root only where there is no other node.
    pub open spec fn wf(self) -> bool {
        &&& preorder(self.depths())
        &&& self.entries.len() <= usize::MAX
        &&& 1 <= self.focused <= self.entries.len()
        &&& (self.focused == 1 ==> self.entries.len() == 1)
        &&& self.lines.wf(self.depths())
        &&& forall|k: usize| #[trigger]
            self.focused_child.contains_key(k) ==> 2 <= self.focused_child[k]
                <= self.entries.len()
    }

    /// The focus moves to the parent, which remembers where it came from;
    /// it stays where the parent is the root.
    pub open spec fn focus_up(self) -> TreeView {
        match parent_of(self.depths(), self.focused_line()) {
            Some(p) => if p == 0 {
                self
            } else {
                TreeView {
                    focused: (p + 1) as usize,
                    focused_child: self.focused_child.insert((p + 1) as usize, self.focused),
                    ..self
                }
            },
            None => self,
        }
    }

    /// The focus moves to the child that it last came up from, or else to the
    /// first child unless the row is folded; it stays where there is neither.
    pub open spec fn focus_down(self) -> TreeView {
        if self.focused_child.contains_key(self.focused) {
            TreeView { focused: self.focused_child[self.focused], ..self }
        } else {
            match first_child_of(self.depths(), self.focused_line()) {
                Some(c) => if self.lines.folded.contains(self.focused_line() as usize) {
                    self
                } else {
                    TreeView { focused: (c + 1) as usize, ..self }
                },
                None => self,
            }
        }
    }

    /// The focus moves to the previous sibling, if there is one.
    pub open spec fn focus_left(self) -> TreeView {
        match previous_sibling_of(self.depths(), self.focused_line()) {
            Some(k) => TreeView { focused: (k + 1) as usize, ..self },
            None => self,
        }
    }

    /// The focus moves to the next sibling, if there is one.
    pub open spec fn focus_right(self) -> TreeView {
        match next_sibling_of(self.depths(), self.focused_line()) {
            Some(k) => TreeView { focused: (k + 1) as usize, ..self },
            None => self,
        }
    }

    /// The row in focus is folded, if the walk reported its entry as a
    /// directory.
    pub open spec fn fold_focus(self) -> TreeView {
        if self.entries[self.focused_line()].de.file_type == Some(EntryType::Dir) {
            TreeView { lines: self.lines.fold(self.depths(), self.focused_line()), ..self }
        } else {
            self
        }
    }

    /// The row in focus is unfolded, if it is folded.
    pub open spec fn unfold_focus(self) -> TreeView {
        TreeView { lines: self.lines.unfold(self.depths(), self.focused_line()), ..self }
    }

    /// A directory in focus is unfolded if it is folded, and folded if it is
    /// not; nothing happens to an entry of another kind.
    pub open spec fn toggle_focus_fold(self) -> TreeView {
        if self.entries[self.focused_line()].ft is Dir {
            if self.lines.folded.contains(self.focused_line() as usize) {
                self.unfold_focus()
            } else {
                self.fold_focus()
            }
        } else {
            self
        }
    }
}

/// The tree of entries with the focus on one of them and the rows that show
/// it.
#[derive(Debug)]
pub struct Tree {
    pub(crate) tree: Arena<FsEntry>,
    pub(crate) root: usize,
    pub(crate) focused: usize,
    pub(crate) focused_child: HashMap<usize, usize>,
    pub(crate) lines: TreeLines,
    pub(crate) n_files: usize,
    pub(crate) n_dirs: usize,
}

impl View for Tree {
    type V = TreeView;

    open(crate) spec fn view(&self) -> TreeView {
        TreeView {
            entries: entries(arena_slots(self.tree)),
            focused: self.focused,
            focused_child: self.focused_child@,
            lines: self.lines@,
            n_files: self.n_files,
            n_dirs: self.n_dirs,
        }
    }
}

/// The depths of a view's entries are the depths of the slots' entries.
pub proof fn lemma_view_depths(v: TreeView, s: Seq<Slot>)
    requires
        v.entries == entries(s),
    ensures
        v.depths() == depths(s),
{
    lemma_entry_depths(s);
}

/// A view stays in order when the focus moves to a node below the root and a
/// node remembers where the focus was.
pub proof fn lemma_refocus(v: TreeView, w: TreeView)
    requires
        v.wf(),
        w.entries == v.entries,
        w.lines == v.lines,
        w.focused == v.focused || 2 <= w.focused <= v.entries.len(),
        forall|k: usize| #[trigger]
            w.focused_child.contains_key(k) ==> {
                ||| v.focused_child.contains_key(k) && w.focused_child[k] == v.focused_child[k]
                ||| w.focused_child[k] == v.focused && v.focused >= 2
            },
    ensures
        w.wf(),
{
    assert(w.depths() == v.depths());
    assert forall|k: usize| #[trigger] w.focused_child.contains_key(k) implies 2
        <= w.focused_child[k] <= w.entries.len() by {
        if v.focused_child.contains_key(k) {
        }
    }
}

/// A view stays in order when its rows are replaced by rows of its tree.
pub proof fn lemma_relined(v: TreeView, lines: LinesView)
    requires
        v.wf(),
        lines.wf(v.depths()),
    ensures
        (TreeView { lines, ..v }).wf(),
{
    let w = TreeView { lines, ..v };
    assert(w.depths() == v.depths());
}

/// The focus of a view in order is on a node of the tree.
pub proof fn lemma_focus(v: TreeView, s: Seq<Slot>)
    requires
        v.wf(),
        is_tree(s),
        v.entries == entries(s),
    ensures
        v.depths() == depths(s),
        preorder(depths(s)),
        1 <= v.focused <= s.len(),
        s.len() == v.entries.len(),
        s.len() <= usize::MAX,
        v.lines.lines.len() == s.len(),
{
    lemma_view_depths(v, s);
    lemma_lines_len(v.lines, v.depths());
}

/// Where a move up leads, read off the links of the node in focus.
pub proof fn lemma_move_up(v: TreeView, s: Seq<Slot>)
    requires
        v.wf(),
        is_tree(s),
        v.entries == entries(s),
    ensures
        1 <= v.focused <= s.len(),
        !s[v.focused - 1].removed,
        v.focus_up() == (match s[v.focused - 1].parent {
            Some(p) => if p == 1 {
                v
            } else {
                TreeView { focused: p, focused_child: v.focused_child.insert(p, v.focused), ..v }
            },
            None => v,
        }),
        s[v.focused - 1].parent matches Some(p) ==> 1 <= p <= s.len() && v.focused >= 2,
{
    lemma_focus(v, s);
    lemma_tree_node(s, v.focused);
    lemma_links_in_range(depths(s), v.focused - 1);
}

/// Where a move down leads, read off the links of the node in focus.
pub proof fn lemma_move_down(v: TreeView, s: Seq<Slot>)
    requires
        v.wf(),
        is_tree(s),
        v.entries == entries(s),
    ensures
        1 <= v.focused <= s.len(),
        !s[v.focused - 1].removed,
        v.focus_down() == (if v.focused_child.contains_key(v.focused) {
            TreeView { focused: v.focused_child[v.focused], ..v }
        } else {
            match s[v.focused - 1].first_child {
                Some(c) => if v.lines.folded.contains((v.focused - 1) as usize) {
                    v
                } else {
                    TreeView { focused: c, ..v }
                },
                None => v,
            }
        }),
        s[v.focused - 1].first_child matches Some(c) ==> 2 <= c <= s.len(),
{
    lemma_focus(v, s);
    lemma_tree_node(s, v.focused);
    lemma_links_in_range(depths(s), v.focused - 1);
}

/// Where a move left leads, read off the links of the node in focus.
pub proof fn lemma_move_left(v: TreeView, s: Seq<Slot>)
    requires
        v.wf(),
        is_tree(s),
        v.entries == entries(s),
    ensures
        1 <= v.focused <= s.len(),
        !s[v.focused - 1].removed,
        v.focus_left() == (match s[v.focused - 1].previous_sibling {
            Some(k) => TreeView { focused: k, ..v },
            None => v,
        }),
        s[v.focused - 1].previous_sibling matches Some(k) ==> 2 <= k <= s.len(),
{
    let d = depths(s);
    let i = v.focused - 1;
    lemma_focus(v, s);
    lemma_tree_node(s, v.focused);
    lemma_links_in_range(d, i);
    if previous_sibling_of(d, i) is Some {
        lemma_previous_sibling(d, i);
        let k = previous_sibling_of(d, i).unwrap();
        if k == 0 {
            assert(d[i] >= 1);
        }
    }
}

/// Where a move right leads, read off the links of the node in focus.
pub proof fn lemma_move_right(v: TreeView, s: Seq<Slot>)
    requires
        v.wf(),
        is_tree(s),
        v.entries == entries(s),
    ensures
        1 <= v.focused <= s.len(),
        !s[v.focused - 1].removed,
        v.focus_right() == (match s[v.focused - 1].next_sibling {
            Some(k) => TreeView { focused: k, ..v },
            None => v,
        }),
        s[v.focused - 1].next_sibling matches Some(k) ==> 2 <= k <= s.len(),
{
    let d = depths(s);
    let i = v.focused - 1;
    lemma_focus(v, s);
    lemma_tree_node(s, v.focused);
    lemma_links_in_range(d, i);
}

/// Toggling the fold of a directory twice gives back the tree as it was, if
/// the directory was not folded before and the row that follows its subtree
/// led back to the last row of that subtree.
pub proof fn lemma_toggle_twice(v: TreeView)
    requires
        v.wf(),
        !v.lines.folded.contains(v.focused_line() as usize),
        subtree_end(v.depths(), v.focused_line()) < v.entries.len() ==> v.lines.lines[subtree_end(
            v.depths(),
            v.focused_line(),
        )].prev == Some((subtree_end(v.depths(), v.focused_line()) - 1) as usize),
    ensures
        v.toggle_focus_fold().toggle_focus_fold() == v,
{
    let d = v.depths();
    let l = v.focused_line();
    lemma_fold_unfold(v.lines, d, l);
    let w = v.toggle_focus_fold();
    assert(w.depths() == d);
    assert(w.entries == v.entries);
}

/// The tree for the entries `es` as it is first shown: the rows drawn, the
/// focus on the first entry below the root, or on the root if there is no
/// other, and the files and directories below the root counted.
pub open spec fn first_view(es: Seq<FsEntryView>) -> TreeView {
    TreeView {
        entries: es,
        focused: if es.len() > 1 {
            2usize
        } else {
            1usize
        },
        focused_child: Map::empty(),
        lines: drawn(entry_depths(es)),
        n_files: files_in(es.drop_first()) as usize,
        n_dirs: dirs_in(es.drop_first()) as usize,
    }
}

/// The tree for the items of a walk that started at `dir`, or the reason why
/// there is none.
pub open spec fn tree_of(items: Seq<WalkItem>, dir: Seq<char>, only_dirs: bool) -> Result<
    TreeView,
    BuildError,
> {
    match built(items, dir, only_dirs) {
        Ok(es) => Ok(first_view(es)),
        Err(e) => Err(e),
    }
}

/// Building twice from the same walk gives the same tree: the same entries,
/// the same rows and the same counts.
pub proof fn lemma_same_walk_same_tree(
    a: TreeView,
    b: TreeView,
    items: Seq<WalkItem>,
    dir: Seq<char>,
    only_dirs: bool,
)
    requires
        tree_of(items, dir, only_dirs) == Ok::<TreeView, BuildError>(a),
        tree_of(items, dir, only_dirs) == Ok::<TreeView, BuildError>(b),
    ensures
        a.entries == b.entries,
        a.lines == b.lines,
        a.n_files == b.n_files,
        a.n_dirs == b.n_dirs,
        summary_text(a.n_dirs, a.n_files) == summary_text(b.n_dirs, b.n_files),
{
}

/// The summary line for so many directories and files.
pub open spec fn summary_text(n_dirs: usize, n_files: usize) -> Seq<char> {
    decimal(n_dirs as nat) + " "@ + (if n_dirs == 1 {
        "directory"@
    } else {
        "directories"@
    }) + ", "@ + decimal(n_files as nat) + " "@ + (if n_files == 1 {
        "file"@
    } else {
        "files"@
    })
}

impl Tree {
    /// The tree is in order: the arena holds one tree in depth-first order,
    /// whose root has the first handle; the rows are its rows; the focus and
    /// what the nodes remember lie in it.
    pub closed spec fn wf(&self) -> bool {
        &&& is_tree(arena_slots(self.tree))
        &&& self.root == 1
        &&& self.lines.indexed()
        &&& self@.wf()
    }

    /// A tree in order has a view in order.
    pub proof fn lemma_wf(&self)
        requires
            self.wf(),
        ensures
            self@.wf(),
    {
    }

    /// The tree for an arena that holds one, with its rows drawn and the
    /// focus on the first entry below the root.
    pub(crate) fn from_arena(tree: Arena<FsEntry>, root: usize, n_files: usize, n_dirs: usize) -> (t:
        Self)
        requires
            is_tree(arena_slots(tree)),
            root == 1,
        ensures
            t.wf(),
            t@.entries == entries(arena_slots(tree)),
            t@.lines == drawn(t@.depths()),
            t@.focused == (if t@.entries.len() > 1 {
                2usize
            } else {
                1usize
            }),
            t@.focused_child == Map::<usize, usize>::empty(),
            t@.n_files == n_files,
            t@.n_dirs == n_dirs,
    {
        broadcast use vstd::std_specs::hash::group_hash_axioms;

        let ghost s = arena_slots(tree);
        proof {
            lemma_tree_shape(s);
            lemma_tree_node(s, 1);
        }
        let lines = draw(&tree, root);
        let focused = match arena_first_child(&tree, root) {
            Some(c) => c,
            None => root,
        };
        let t = Tree { focused, tree, root, focused_child: HashMap::new(), lines, n_files, n_dirs };
        proof {
            lemma_view_depths(t@, s);
        }
        t
    }

    /// Builds the tree for the items of a walk that started at the current
    /// directory.
    pub fn new(items: Vec<WalkItem>) -> (r: Result<Self, BuildError>)
        ensures
            r matches Ok(t) ==> t.wf() && tree_of(items@, "."@, false) == Ok::<
                TreeView,
                BuildError,
            >(t@),
            r matches Err(e) ==> tree_of(items@, "."@, false) == Err::<TreeView, BuildError>(e),
    {
        Tree::new_with_options(FsOptions::new(".".to_owned()), items)
    }

    /// Builds the tree for the items of a walk that started at `dir`.
    pub fn new_from_dir(dir: &str, items: Vec<WalkItem>) -> (r: Result<Self, BuildError>)
        ensures
            r matches Ok(t) ==> t.wf() && tree_of(items@, dir@, false) == Ok::<
                TreeView,
                BuildError,
            >(t@),
            r matches Err(e) ==> tree_of(items@, dir@, false) == Err::<TreeView, BuildError>(e),
    {
        let opt = FsOptions::new(dir.to_owned());
        Tree::new_with_options(opt, items)
    }

    /// Builds the tree for the items of a walk that was made with `options`,
    /// draws its rows and puts the focus on the first entry below the root.
    pub fn new_with_options(options: FsOptions, items: Vec<WalkItem>) -> (r: Result<
        Self,
        BuildError,
    >)
        ensures
            r matches Ok(t) ==> t.wf() && tree_of(items@, options.root@, options.only_dirs)
                == Ok::<TreeView, BuildError>(t@),
            r matches Err(e) ==> tree_of(items@, options.root@, options.only_dirs) == Err::<
                TreeView,
                BuildError,
            >(e),
    {
        match fs_to_tree(&options, items) {
            Ok((tree, root, n_files, n_dirs)) => {
                proof {
                    lemma_entry_depths(arena_slots(tree));
                    lemma_dirs_push(
                        entries(arena_slots(tree)).drop_first(),
                        entries(arena_slots(tree))[0],
                    );
                }
                let t = Tree::from_arena(tree, root, n_files, n_dirs);
                assert(t@ == first_view(t@.entries));
                Ok(t)
            },
            Err(e) => Err(e),
        }
    }

    /// The summary line: how many directories and files the tree holds below
    /// its root, whatever is folded.
    pub fn summary(&self) -> (s: String)
        ensures
            s@ == summary_text(self@.n_dirs, self@.n_files),
    {
        let mut s = to_decimal(self.n_dirs);
        s.append(" ");
        s.append(if self.n_dirs == 1 { "directory" } else { "directories" });
        s.append(", ");
        s.append(to_decimal(self.n_files).as_str());
        s.append(" ");
        s.append(if self.n_files == 1 { "file" } else { "files" });
        s
    }

    /// The number of rows, which is the number of nodes.
    pub fn line_count(&self) -> (n: usize)
        requires
            self.wf(),
        ensures
            n == self@.entries.len(),
            n == self@.lines.lines.len(),
            n >= 1,
    {
        proof {
            lemma_lines_len(self@.lines, self@.depths());
        }
        self.lines.count
    }

    /// The row with index `i`.
    pub fn line(&self, i: usize) -> (l: &TreeLine)
        requires
            self.wf(),
            i < self@.entries.len(),
        ensures
            l@ == self@.lines.lines[i as int],
    {
        proof {
            lemma_lines_len(self@.lines, self@.depths());
        }
        &self.lines.lines[i]
    }

    /// The entry of the node with handle `node`.
    pub fn entry(&self, node: usize) -> (e: &FsEntry)
        requires
            self.wf(),
            1 <= node <= self@.entries.len(),
        ensures
            e@ == self@.entries[node - 1],
    {
        proof {
            lemma_tree_node(arena_slots(self.tree), node);
        }
        arena_data(&self.tree, node)
    }

    /// Whether the row with index `line` is folded.
    pub fn is_folded(&self, line: usize) -> (b: bool)
        ensures
            b == self@.lines.folded.contains(line),
    {
        broadcast use vstd::std_specs::hash::group_hash_axioms;

        self.lines.folded.contains(&line)
    }

    /// The entry in focus.
    pub fn focused(&self) -> (e: &FsEntry)
        requires
            self.wf(),
        ensures
            e@ == self@.entries[self@.focused_line()],
    {
        proof {
            lemma_tree_node(arena_slots(self.tree), self.focused);
        }
        arena_data(&self.tree, self.focused)
    }

    /// The index of the row of the node in focus.
    pub fn focused_line_ind(&self) -> (i: usize)
        requires
            self.wf(),
        ensures
            i == self@.focused_line(),
            i < self@.entries.len(),
    {
        broadcast use vstd::std_specs::hash::group_hash_axioms;

        proof {
            lemma_lines_len(self@.lines, self@.depths());
            assert(Set::new(|h: usize| 1 <= h <= self.lines.count).contains(self.focused));
        }
        *self.lines.inds.get(&self.focused).unwrap()
    }

    /// Moves the focus to the parent, unless that is the root.
    pub fn focus_up(&mut self)
        requires
            old(self).wf(),
        ensures
            final(self).wf(),
            final(self)@ == old(self)@.focus_up(),
    {
        broadcast use vstd::std_specs::hash::group_hash_axioms;

        proof {
            lemma_move_up(self@, arena_slots(self.tree));
        }
        match arena_parent(&self.tree, self.focused) {
            None => {},
            Some(p) => {
                if p != self.root {
                    self.focused_child.insert(p, self.focused);
                    self.focused = p;
                }
            },
        }
        proof {
            lemma_refocus(old(self)@, self@);
        }
    }

    /// Moves the focus to a child: the one that it last came up from, or
    /// else the first, unless the row is folded.
    pub fn focus_down(&mut self)
        requires
            old(self).wf(),
        ensures
            final(self).wf(),
            final(self)@ == old(self)@.focus_down(),
    {
        broadcast use vstd::std_specs::hash::group_hash_axioms;

        proof {
            lemma_move_down(self@, arena_slots(self.tree));
        }
        let remembered = match self.focused_child.get(&self.focused) {
            Some(c) => Some(*c),
            None => None,
        };
        assert(remembered == (if self@.focused_child.contains_key(self.focused) {
            Some(self@.focused_child[self.focused])
        } else {
            None
        }));
        match remembered {
            Some(c) => {
                self.focused = c;
            },
            None => match arena_first_child(&self.tree, self.focused) {
                None => {},
                Some(ps) => {
                    let line = self.focused_line_ind();
                    if !self.lines.folded.contains(&line) {
                        self.focused = ps;
                    }
                },
            },
        }
        proof {
            lemma_refocus(old(self)@, self@);
        }
    }

    /// Moves the focus to the previous sibling, if there is one.
    pub fn focus_left(&mut self)
        requires
            old(self).wf(),
        ensures
            final(self).wf(),
            final(self)@ == old(self)@.focus_left(),
    {
        proof {
            lemma_move_left(self@, arena_slots(self.tree));
        }
        match arena_previous_sibling(&self.tree, self.focused) {
            None => {},
            Some(ps) => {
                self.focused = ps;
            },
        }
        proof {
            lemma_refocus(old(self)@, self@);
        }
    }

    /// Moves the focus to the next sibling, if there is one.
    pub fn focus_right(&mut self)
        requires
            old(self).wf(),
        ensures
            final(self).wf(),
            final(self)@ == old(self)@.focus_right(),
    {
        proof {
            lemma_move_right(self@, arena_slots(self.tree));
        }
        match arena_next_sibling(&self.tree, self.focused) {
            None => {},
            Some(ps) => {
                self.focused = ps;
            },
        }
        proof {
            lemma_refocus(old(self)@, self@);
        }
    }

    /// The index of the row of a node.
    fn line_of(&self, node: usize) -> (i: usize)
        requires
            self.wf(),
            1 <= node <= self@.entries.len(),
        ensures
            i == node - 1,
    {
        broadcast use vstd::std_specs::hash::group_hash_axioms;

        proof {
            lemma_lines_len(self@.lines, self@.depths());
            assert(Set::new(|h: usize| 1 <= h <= self.lines.count).contains(node));
        }
        *self.lines.inds.get(&node).unwrap()
    }

    /// Folds or unfolds the row in focus, if it shows a directory.
    pub fn toggle_focus_fold(&mut self)
        requires
            old(self).wf(),
        ensures
            final(self).wf(),
            final(self)@ == old(self)@.toggle_focus_fold(),
    {
        broadcast use vstd::std_specs::hash::group_hash_axioms;

        let is_dir = match self.focused().ft {
            FileType::Dir => true,
            _ => false,
        };
        if is_dir {
            let line = self.focused_line_ind();
            if self.lines.folded.contains(&line) {
                self.unfold_focus();
            } else {
                self.fold_focus();
            }
        }
    }

    /// Unfolds the row in focus, if it is folded: its descendants are back in
    /// the list of rows.
    pub fn unfold_focus(&mut self)
        requires
            old(self).wf(),
        ensures
            final(self).wf(),
            final(self)@ == old(self)@.unfold_focus(),
    {
        broadcast use vstd::std_specs::hash::group_hash_axioms;

        let ghost s = arena_slots(self.tree);
        let ghost d = depths(s);
        let ghost m = subtree_end(d, self.focused - 1);
        proof {
            lemma_focus(self@, s);
            lemma_unfold_wf(self@.lines, d, self.focused - 1);
            lemma_relined(self@, self@.lines.unfold(d, self.focused - 1));
        }
        let f_ind = self.focused_line_ind();
        if !self.lines.folded.contains(&f_ind) {
            return ;
        }
        let mut ptr = self.focused;
        loop
            invariant_except_break
                1 <= ptr <= s.len(),
                subtree_end(d, ptr - 1) == m,
            invariant
                is_tree(s),
                s == arena_slots(self.tree),
                d == depths(s),
            ensures
                1 <= ptr <= s.len(),
                ptr == m,
            decreases s.len() - ptr,
        {
            proof {
                lemma_step_down(s, ptr);
            }
            match arena_last_child(&self.tree, ptr) {
                Some(c) => {
                    ptr = c;
                },
                None => {
                    break ;
                },
            }
        }
        let last = self.line_of(ptr);
        self.lines.unfold_at(Ghost(d), f_ind, last);
    }

    /// Folds the row in focus, if the walk reported a directory there: its
    /// descendants leave the list of rows.
    pub fn fold_focus(&mut self)
        requires
            old(self).wf(),
        ensures
            final(self).wf(),
            final(self)@ == old(self)@.fold_focus(),
    {
        broadcast use vstd::std_specs::hash::group_hash_axioms;

        let ghost s = arena_slots(self.tree);
        let ghost d = depths(s);
        let ghost m = subtree_end(d, self.focused - 1);
        proof {
            lemma_focus(self@, s);
            lemma_fold_wf(self@.lines, d, self.focused - 1);
            lemma_relined(self@, self@.lines.fold(d, self.focused - 1));
            lemma_subtree_end(d, self.focused - 1);
        }
        let is_dir = match self.focused().de.file_type {
            Some(EntryType::Dir) => true,
            _ => false,
        };
        if !is_dir {
            return ;
        }
        let mut ptr = Some(self.focused);
        let mut new_next = self.lines.count;
        loop
            invariant_except_break
                ptr matches Some(p) && 1 <= p <= s.len() && subtree_end(d, p - 1) == m,
            invariant
                old(self).wf(),
                *self == *old(self),
                is_tree(s),
                s == arena_slots(self.tree),
                d == depths(s),
                self.lines.count == s.len(),
            ensures
                new_next == m,
            decreases
                    (match ptr {
                        Some(p) => p as int,
                        None => 0,
                    }),
        {
            let p = ptr.unwrap();
            proof {
                lemma_step_up(s, p);
                lemma_view_depths(self@, s);
            }
            match arena_next_sibling(&self.tree, p) {
                Some(n) => {
                    new_next = self.line_of(n);
                    break ;
                },
                None => match arena_parent(&self.tree, p) {
                    Some(q) => {
                        ptr = Some(q);
                    },
                    None => {
                        new_next = self.lines.count;
                        break ;
                    },
                },
            }
        }
        let f_ind = self.focused_line_ind();
        self.lines.fold_at(Ghost(d), f_ind, new_next);
    }
}

} // verus!
