//! The tree builder: from the items of a directory walk to the tree.

use vstd::prelude::*;
use vstd::string::*;
use indextree::Arena;
use crate::arena::{
    arena_data, arena_new, arena_new_node, arena_parent, arena_slots, fresh_slot, Slot,
};
use crate::entry::{
    de_to_fsentry, entry_of, is_or_points_to_dir, points_to_dir, root_entry_of,
    root_to_fsentry, FileType, FileTypeView, FsEntry, FsEntryView, WalkEntry, WalkError, WalkItem,
};
use crate::links::{
    add_child_to_tree, depths, entries, entry_depths, is_tree, lemma_entry_depths,
    lemma_single_tree, lemma_step_up, lemma_tree_node, lemma_tree_shape, lemma_with_child,
    with_child,
};
use crate::options::FsOptions;
use crate::shape::{lemma_parent, preorder, subtree_end};
use crate::util::PutBack;

verus! {

/// Where the entry after the one at hand lies, relative to it.
#[derive(Debug, Clone, Copy, PartialEq, Eq, Structural)]
pub enum DepthChange {
    /// The next entry lies deeper: it is the first child of the one at hand.
    NextIsFirst,
    /// The next entry lies at the same depth.
    Isnt,
    /// The entry at hand is the last of its siblings; the next one lies this
    /// many levels higher.
    Last(usize),
}

impl DepthChange {
    /// The change from an entry at depth `curr` to one at depth `next`.
    pub open spec fn between(next: usize, curr: usize) -> DepthChange {
        if next < curr {
            DepthChange::Last((curr - next) as usize)
        } else if next > curr {
            DepthChange::NextIsFirst
        } else {
            DepthChange::Isnt
        }
    }

    /// The change from an entry at depth `curr` to one at depth `next`.
    pub fn for_depths(next: usize, curr: usize) -> (c: Self)
        ensures
            c == Self::between(next, curr),
    {
        if next < curr {
            DepthChange::Last(curr - next)
        } else if next > curr {
            DepthChange::NextIsFirst
        } else {
            DepthChange::Isnt
        }
    }
}

/// Why no tree could be built.
#[derive(Debug)]
pub enum BuildError {
    /// The walk reported nothing, not even its starting point.
    NoEntry,
    /// The walk failed at its starting point.
    Root(WalkError),
    /// The depths that the walk reported are not those of a depth-first walk
    /// from a single starting point.
    Malformed,
}

/// What the user is told when no tree could be built.
pub open spec fn failure_text(e: BuildError) -> Seq<char> {
    match e {
        BuildError::NoEntry => "Should always get a first walk entry"@,
        BuildError::Malformed => "The walk did not report its entries in depth-first order"@,
        BuildError::Root(WalkError::NotFound { path }) => "Path \""@ + path@ + "\" was not found"@,
        BuildError::Root(WalkError::PermissionDenied { path }) => "An error occurred getting "@
            + path@ + ": "@ + "PermissionDenied"@,
        BuildError::Root(WalkError::Io { path, kind }) => "An error occurred getting "@ + path@
            + ": "@ + kind@,
        BuildError::Root(WalkError::WithPath { path, detail }) => "Could not get "@ + path@
            + ": "@ + detail@,
        BuildError::Root(WalkError::Other) => "An unexpected error occurred getting the root!"@,
    }
}

/// The status with which the program ends when no tree could be built: 1 if
/// the walk failed on the path that it was to start at, else 2.
pub open spec fn failure_code(e: BuildError) -> i32 {
    match e {
        BuildError::Root(WalkError::Other) => 2,
        BuildError::Root(_) => 1,
        _ => 2,
    }
}

impl BuildError {
    /// What the user is told.
    pub fn message(&self) -> (s: String)
        ensures
            s@ == failure_text(*self),
    {
        match self {
            BuildError::NoEntry => "Should always get a first walk entry".to_owned(),
            BuildError::Malformed => "The walk did not report its entries in depth-first order".to_owned(),
            BuildError::Root(WalkError::NotFound { path }) => {
                let mut s = "Path \"".to_owned();
                s.append(path.as_str());
                s.append("\" was not found");
                s
            },
            BuildError::Root(WalkError::PermissionDenied { path }) => {
                let mut s = "An error occurred getting ".to_owned();
                s.append(path.as_str());
                s.append(": ");
                s.append("PermissionDenied");
                s
            },
            BuildError::Root(WalkError::Io { path, kind }) => {
                let mut s = "An error occurred getting ".to_owned();
                s.append(path.as_str());
                s.append(": ");
                s.append(kind.as_str());
                s
            },
            BuildError::Root(WalkError::WithPath { path, detail }) => {
                let mut s = "Could not get ".to_owned();
                s.append(path.as_str());
                s.append(": ");
                s.append(detail.as_str());
                s
            },
            BuildError::Root(WalkError::Other) => "An unexpected error occurred getting the root!".to_owned(),
        }
    }

    /// The status with which the program ends.
    pub fn exit_code(&self) -> (code: i32)
        ensures
            code == failure_code(*self),
    {
        match self {
            BuildError::Root(WalkError::Other) => 2,
            BuildError::Root(_) => 1,
            _ => 2,
        }
    }
}

/// Whether an item of the walk becomes a node of the tree: errors do not, and
/// where only directories are wanted, nothing else does.
pub open spec fn keeps(item: WalkItem, only_dirs: bool) -> bool {
    item matches WalkItem::Entry(e) && (!only_dirs || points_to_dir(e))
}

/// How many items come before the first one that is kept.
pub open spec fn next_kept(r: Seq<WalkItem>, only_dirs: bool) -> int
    decreases r.len(),
{
    if r.len() == 0 || keeps(r[0], only_dirs) {
        0
    } else {
        1 + next_kept(r.drop_first(), only_dirs)
    }
}

/// Whether an item reports that access to `path` was denied.
pub open spec fn denies(item: WalkItem, path: Seq<char>) -> bool {
    item matches WalkItem::Error(WalkError::PermissionDenied { path: p }) && p@ == path
}

/// Whether access to `path` is reported as denied before the first item that
/// is kept.
pub open spec fn denied_ahead(r: Seq<WalkItem>, path: Seq<char>, only_dirs: bool) -> bool
    decreases r.len(),
{
    if r.len() == 0 || keeps(r[0], only_dirs) {
        false
    } else {
        denies(r[0], path) || denied_ahead(r.drop_first(), path, only_dirs)
    }
}

/// A tree entry made restricted.
pub open spec fn restricted(e: FsEntryView) -> FsEntryView {
    FsEntryView { ft: FileTypeView::RestrictedDir, ..e }
}

/// The tree entry for a walk entry that is followed by the items `after`: a
/// restricted directory if the walk goes on to report that it could not be
/// opened.
pub open spec fn placed(de: WalkEntry, after: Seq<WalkItem>, only_dirs: bool) -> FsEntryView {
    if denied_ahead(after, de.path@, only_dirs) {
        restricted(entry_of(de))
    } else {
        entry_of(de)
    }
}

/// The tree entries for the items of a walk after its starting point: one for
/// each item that is kept, in the order of the walk.
pub open spec fn entries_from(r: Seq<WalkItem>, only_dirs: bool) -> Seq<FsEntryView>
    decreases r.len(),
{
    if r.len() == 0 {
        Seq::empty()
    } else if keeps(r[0], only_dirs) {
        seq![placed(r[0]->Entry_0, r.drop_first(), only_dirs)] + entries_from(
            r.drop_first(),
            only_dirs,
        )
    } else {
        entries_from(r.drop_first(), only_dirs)
    }
}

/// How many of the entries are directories or links to directories.
pub open spec fn dirs_in(es: Seq<FsEntryView>) -> nat
    decreases es.len(),
{
    if es.len() == 0 {
        0
    } else {
        dirs_in(es.drop_last()) + (if points_to_dir(es.last().de) {
            1nat
        } else {
            0nat
        })
    }
}

/// How many of the entries are neither directories nor links to directories.
pub open spec fn files_in(es: Seq<FsEntryView>) -> nat {
    (es.len() - dirs_in(es)) as nat
}

/// The entries of the tree for a walk that started at `dir`: the root, then
/// the entries for the items that are kept.
pub open spec fn tree_entries(items: Seq<WalkItem>, dir: Seq<char>, only_dirs: bool) -> Seq<
    FsEntryView,
> {
    seq![root_entry_of(dir, items[0]->Entry_0)] + entries_from(items.drop_first(), only_dirs)
}

/// What building a tree from the items of a walk gives: the entries of the
/// tree in depth-first order, or the reason why there is no tree.
pub open spec fn built(items: Seq<WalkItem>, dir: Seq<char>, only_dirs: bool) -> Result<
    Seq<FsEntryView>,
    BuildError,
> {
    if items.len() == 0 {
        Err(BuildError::NoEntry)
    } else {
        match items[0] {
            WalkItem::Error(e) => Err(BuildError::Root(e)),
            WalkItem::Entry(_) => if preorder(entry_depths(tree_entries(items, dir, only_dirs))) {
                Ok(tree_entries(items, dir, only_dirs))
            } else {
                Err(BuildError::Malformed)
            },
        }
    }
}

/// The depth `next` of the entry that comes next fits below the node `curr`:
/// if it is a depth that may follow the last node of the tree at all, it is
/// one more than the depth of `curr`.
pub open spec fn fits(d: Seq<int>, curr: usize, next: usize) -> bool {
    1 <= next <= d.last() + 1 ==> next == d[curr - 1] + 1
}

/// The items before the first one that is kept add nothing to the tree.
pub proof fn lemma_next_kept(r: Seq<WalkItem>, only_dirs: bool)
    ensures
        0 <= next_kept(r, only_dirs) <= r.len(),
        next_kept(r, only_dirs) < r.len() ==> keeps(r[next_kept(r, only_dirs)], only_dirs),
        entries_from(r.skip(next_kept(r, only_dirs)), only_dirs) == entries_from(r, only_dirs),
    decreases r.len(),
{
    if r.len() == 0 || keeps(r[0], only_dirs) {
        assert(r.skip(0) =~= r);
    } else {
        let t = r.drop_first();
        lemma_next_kept(t, only_dirs);
        assert(r.skip(1 + next_kept(t, only_dirs)) =~= t.skip(next_kept(t, only_dirs)));
    }
}

/// Counting directories: one more entry.
pub proof fn lemma_dirs_push(es: Seq<FsEntryView>, e: FsEntryView)
    ensures
        dirs_in(es.push(e)) == dirs_in(es) + (if points_to_dir(e.de) {
            1nat
        } else {
            0nat
        }),
        dirs_in(es) <= es.len(),
    decreases es.len(),
{
    assert(es.push(e).drop_last() =~= es);
    if es.len() > 0 {
        lemma_dirs_push(es.drop_last(), es.last());
        assert(es.drop_last().push(es.last()) =~= es);
    }
}

/// The first nodes of a depth-first walk are themselves a depth-first walk,
/// and the next depth fits the one before it.
pub proof fn lemma_preorder_prefix(d: Seq<int>, n: int)
    requires
        preorder(d),
        1 <= n <= d.len(),
    ensures
        preorder(d.take(n)),
        n < d.len() ==> 1 <= d[n] <= d[n - 1] + 1,
{
    let t = d.take(n);
    assert forall|i: int| 1 <= i < t.len() implies 1 <= #[trigger] t[i] <= t[i - 1] + 1 by {
        assert(t[i] == d[i]);
        assert(t[i - 1] == d[i - 1]);
    }
}

/// Looks ahead in the walk for the item that follows the entry `fse` in the
/// tree, and says where it lies relative to `fse`. Items that are not kept
/// are passed over; a report that `fse` could not be opened marks it as a
/// restricted directory.
pub fn determine_place_in_tree(
    walk: &mut PutBack<WalkItem>,
    fse: &mut FsEntry,
    only_dirs: bool,
) -> (place: DepthChange)
    requires
        !old(walk).on_deck(),
    ensures
        final(walk)@ == old(walk)@.skip(next_kept(old(walk)@, only_dirs)),
        final(walk).on_deck() == (next_kept(old(walk)@, only_dirs) < old(walk)@.len()),
        final(fse).de == old(fse).de,
        final(fse)@ == (if denied_ahead(old(walk)@, old(fse).de.path@, only_dirs) {
            restricted(old(fse)@)
        } else {
            old(fse)@
        }),
        place == (if next_kept(old(walk)@, only_dirs) < old(walk)@.len() {
            DepthChange::between(
                old(walk)@[next_kept(old(walk)@, only_dirs)]->Entry_0.depth,
                old(fse).de.depth,
            )
        } else {
            DepthChange::Last(0)
        }),
{
    let ghost r = walk@;
    let ghost path = fse.de.path@;
    let ghost j: int = 0;
    let ghost seen = false;
    proof {
        assert(r.skip(0) =~= r);
        lemma_next_kept(r, only_dirs);
    }
    loop
        invariant_except_break
            !walk.on_deck(),
            0 <= j <= r.len(),
            walk@ == r.skip(j),
            next_kept(r, only_dirs) == j + next_kept(walk@, only_dirs),
            denied_ahead(r, path, only_dirs) == (seen || denied_ahead(walk@, path, only_dirs)),
        invariant
            fse.de == old(fse).de,
            path == old(fse).de.path@,
            r == old(walk)@,
            fse@ == (if seen {
                restricted(old(fse)@)
            } else {
                old(fse)@
            }),
        ensures
            j == next_kept(r, only_dirs),
            j == r.len(),
            walk@ == r.skip(j),
            !walk.on_deck(),
            seen == denied_ahead(r, path, only_dirs),
        decreases r.len() - j,
    {
        let ghost cur = walk@;
        match walk.next() {
            None => {
                break ;
            },
            Some(next) => {
                proof {
                    assert(cur.drop_first() =~= r.skip(j + 1));
                    assert(cur[0] == r[j]);
                }
                match next {
                    WalkItem::Entry(de) => {
                        if only_dirs && !is_or_points_to_dir(&de) {
                            proof {
                                j = j + 1;
                            }
                            continue ;
                        }
                        let nd = de.depth;
                        walk.put_back(WalkItem::Entry(de));
                        assert(walk@ =~= cur);
                        return DepthChange::for_depths(nd, fse.de.depth);
                    },
                    WalkItem::Error(e) => {
                        proof {
                            j = j + 1;
                        }
                        match e {
                            WalkError::PermissionDenied { path: p } => {
                                if p == fse.de.path {
                                    // A permission-denied error trying to recur into a
                                    // subdirectory. This is fine, but we keep track of it.
                                    fse.ft = FileType::RestrictedDir;
                                    proof {
                                        seen = true;
                                    }
                                }
                            },
                            _ => {},
                        }
                    },
                }
            },
        }
    }
    DepthChange::Last(0)
}

/// The positions, counted from `base`, of the errors among the items `r` that
/// the builder passes over without a mark on any entry: every error but a
/// report that access was denied to the entry that was kept last, whose path
/// is `last`.
pub open spec fn unexpected_from(
    r: Seq<WalkItem>,
    last: Option<Seq<char>>,
    only_dirs: bool,
    base: int,
) -> Seq<int>
    decreases r.len(),
{
    if r.len() == 0 {
        Seq::empty()
    } else if keeps(r[0], only_dirs) {
        unexpected_from(r.drop_first(), Some(r[0]->Entry_0.path@), only_dirs, base + 1)
    } else if r[0] is Error && !(last is Some && denies(r[0], last.unwrap())) {
        seq![base] + unexpected_from(r.drop_first(), last, only_dirs, base + 1)
    } else {
        unexpected_from(r.drop_first(), last, only_dirs, base + 1)
    }
}

/// The positions of the errors after the start of a walk that the builder
/// passes over without a mark on any entry.
pub open spec fn unexpected(items: Seq<WalkItem>, only_dirs: bool) -> Seq<int> {
    if items.len() == 0 {
        Seq::empty()
    } else {
        unexpected_from(items.skip(1), None, only_dirs, 1)
    }
}

/// The positions of the errors after the start of the walk that the builder
/// passes over without a mark on any entry. They are worth a note to the
/// user.
pub fn unexpected_errors(items: &Vec<WalkItem>, only_dirs: bool) -> (r: Vec<usize>)
    ensures
        r@.map_values(|i: usize| i as int) == unexpected(items@, only_dirs),
{
    let mut found: Vec<usize> = Vec::new();
    if items.len() == 0 {
        assert(found@.map_values(|i: usize| i as int) =~= Seq::<int>::empty());
        return found;
    }
    let mut last: Option<usize> = None;
    let mut i: usize = 1;
    let ghost target = unexpected_from(items@.skip(1), None, only_dirs, 1);
    proof {
        assert(found@.map_values(|i: usize| i as int) + target =~= target);
    }
    while i < items.len()
        invariant
            1 <= i <= items.len(),
            last matches Some(k) ==> k < i && k < items@.len() && items@[k as int] is Entry,
            found@.map_values(|i: usize| i as int) + unexpected_from(
                items@.skip(i as int),
                match last {
                    Some(k) => Some(items@[k as int]->Entry_0.path@),
                    None => None,
                },
                only_dirs,
                i as int,
            ) == target,
        decreases items.len() - i,
    {
        let ghost before = found@.map_values(|i: usize| i as int);
        let ghost rest = items@.skip(i as int);
        proof {
            assert(rest.drop_first() =~= items@.skip(i + 1));
            assert(rest[0] == items@[i as int]);
        }
        match &items[i] {
            WalkItem::Entry(de) => {
                if !only_dirs || is_or_points_to_dir(de) {
                    last = Some(i);
                }
            },
            WalkItem::Error(e) => {
                let expected = match (e, last) {
                    (WalkError::PermissionDenied { path }, Some(k)) => match &items[k] {
                        WalkItem::Entry(de) => *path == de.path,
                        WalkItem::Error(_) => false,
                    },
                    _ => false,
                };
                if !expected {
                    found.push(i);
                    proof {
                        let after = found@.map_values(|i: usize| i as int);
                        assert(after =~= before + seq![i as int]);
                        assert((before + seq![i as int]) + unexpected_from(
                            rest.drop_first(),
                            match last {
                                Some(k) => Some(items@[k as int]->Entry_0.path@),
                                None => None,
                            },
                            only_dirs,
                            i + 1,
                        ) =~= before + (seq![i as int] + unexpected_from(
                            rest.drop_first(),
                            match last {
                                Some(k) => Some(items@[k as int]->Entry_0.path@),
                                None => None,
                            },
                            only_dirs,
                            i + 1,
                        )));
                    }
                }
            },
        }
        i += 1;
    }
    proof {
        assert(items@.skip(i as int).len() == 0);
        assert(found@.map_values(|i: usize| i as int) + Seq::<int>::empty()
            =~= found@.map_values(|i: usize| i as int));
    }
    found
}

/// One step up from a node whose subtree reaches the end of the tree: its
/// parent, one level higher, has such a subtree too; only the root has no
/// parent.
pub proof fn lemma_climb_step(s: Seq<Slot>, p: usize)
    requires
        is_tree(s),
        1 <= p <= s.len(),
        subtree_end(depths(s), p - 1) == s.len(),
    ensures
        !s[p - 1].removed,
        match s[p - 1].parent {
            Some(q) => {
                &&& 1 <= q < p
                &&& subtree_end(depths(s), q - 1) == s.len()
                &&& depths(s)[q - 1] + 1 == depths(s)[p - 1]
            },
            None => p == 1 && depths(s)[0] == 0,
        },
{
    lemma_step_up(s, p);
    lemma_tree_node(s, p);
    if p > 1 {
        lemma_parent(depths(s), p - 1);
    }
}

/// Goes up from `node` by `levels` levels, or as far as the root.
fn climb(tree: &Arena<FsEntry>, node: usize, levels: usize) -> (r: usize)
    requires
        is_tree(arena_slots(*tree)),
        1 <= node <= arena_slots(*tree).len(),
        subtree_end(depths(arena_slots(*tree)), node - 1) == arena_slots(*tree).len(),
    ensures
        1 <= r <= arena_slots(*tree).len(),
        subtree_end(depths(arena_slots(*tree)), r - 1) == arena_slots(*tree).len(),
        depths(arena_slots(*tree))[r - 1] == (if levels <= depths(arena_slots(*tree))[node - 1] {
            depths(arena_slots(*tree))[node - 1] - levels
        } else {
            0
        }),
{
    let ghost s = arena_slots(*tree);
    let ghost d = depths(s);
    let mut curr = node;
    let mut i: usize = 0;
    proof {
        lemma_tree_shape(s);
        lemma_climb_step(s, node);
    }
    while i < levels
        invariant
            s == arena_slots(*tree),
            d == depths(s),
            is_tree(s),
            preorder(d),
            1 <= node <= s.len(),
            0 <= i <= levels,
            1 <= curr <= s.len(),
            subtree_end(d, curr - 1) == s.len(),
            d[curr - 1] == (if i <= d[node - 1] {
                d[node - 1] - i
            } else {
                0
            }),
            d[node - 1] >= 0,
        decreases levels - i,
    {
        proof {
            lemma_climb_step(s, curr);
        }
        match arena_parent(tree, curr) {
            Some(q) => {
                curr = q;
            },
            None => {},
        }
        i += 1;
    }
    curr
}

/// Why a walk whose next depth does not fit gives no tree: the depths of
/// the entries are then not those of a depth-first walk.
pub proof fn lemma_bad_depth(target: Seq<FsEntryView>, sofar: Seq<FsEntryView>, rest: Seq<FsEntryView>)
    requires
        target == sofar + rest,
        sofar.len() >= 1,
        rest.len() >= 1,
        preorder(entry_depths(target)),
    ensures
        1 <= rest[0].de.depth <= sofar.last().de.depth + 1,
{
    let n = sofar.len() as int;
    let ed = entry_depths(target);
    lemma_preorder_prefix(ed, n);
    assert(ed[n] == rest[0].de.depth);
    assert(ed[n - 1] == sofar.last().de.depth);
}

/// The depth of the node below which the next entry is to go, after an entry
/// at depth `depth` was placed and the next one was found to lie at `place`
/// relative to it.
pub open spec fn depth_after(depth: int, place: DepthChange) -> int {
    match place {
        DepthChange::NextIsFirst => depth,
        DepthChange::Isnt => depth - 1,
        DepthChange::Last(up) => if up <= depth - 1 {
            depth - 1 - up
        } else {
            0
        },
    }
}

/// Stores `fse` as the last child of `curr` and returns the node below which
/// the next entry is to go.
fn insert_entry(tree: &mut Arena<FsEntry>, curr: usize, fse: FsEntry, place: DepthChange) -> (next:
    usize)
    requires
        is_tree(arena_slots(*old(tree))),
        arena_slots(*old(tree)).len() < usize::MAX,
        1 <= curr <= arena_slots(*old(tree)).len(),
        subtree_end(depths(arena_slots(*old(tree))), curr - 1) == arena_slots(*old(tree)).len(),
        fse.de.depth == depths(arena_slots(*old(tree)))[curr - 1] + 1,
    ensures
        arena_slots(*final(tree)) == with_child(arena_slots(*old(tree)), curr, fse),
        is_tree(arena_slots(*final(tree))),
        1 <= next <= arena_slots(*final(tree)).len(),
        subtree_end(depths(arena_slots(*final(tree))), next - 1) == arena_slots(
            *final(tree),
        ).len(),
        depths(arena_slots(*final(tree)))[next - 1] == depth_after(fse.de.depth as int, place),
{
    let ghost s = arena_slots(*tree);
    proof {
        lemma_with_child(s, curr, fse);
        lemma_tree_shape(s);
    }
    match place {
        DepthChange::NextIsFirst => add_child_to_tree(tree, curr, fse),
        DepthChange::Isnt => {
            add_child_to_tree(tree, curr, fse);
            curr
        },
        DepthChange::Last(up) => {
            add_child_to_tree(tree, curr, fse);
            climb(tree, curr, up)
        },
    }
}

/// The state of the builder between two entries: the arena holds a tree
/// whose entries, with those still to be made from the rest of the walk, are
/// the entries that are to be built; `curr` is a node whose subtree reaches
/// the end of the tree, and the next entry fits below it if it fits at all;
/// the counts are those of the entries below the root.
#[verifier::opaque]
pub open spec fn building(
    s: Seq<Slot>,
    curr: usize,
    rest: Seq<WalkItem>,
    only_dirs: bool,
    target: Seq<FsEntryView>,
    n_files: usize,
    n_dirs: usize,
    total: int,
) -> bool {
    &&& is_tree(s)
    &&& 1 <= curr <= s.len()
    &&& subtree_end(depths(s), curr - 1) == s.len()
    &&& entries(s) + entries_from(rest, only_dirs) == target
    &&& s.len() + rest.len() <= total <= usize::MAX
    &&& n_dirs == dirs_in(entries(s).drop_first())
    &&& n_files + n_dirs == s.len() - 1
    &&& (next_kept(rest, only_dirs) < rest.len() ==> fits(
        depths(s),
        curr,
        rest[next_kept(rest, only_dirs)]->Entry_0.depth,
    ))
}

/// The builder starts with the root alone.
pub proof fn lemma_building_starts(
    root: FsEntry,
    rest: Seq<WalkItem>,
    only_dirs: bool,
    target: Seq<FsEntryView>,
    total: int,
)
    requires
        root.de.depth == 0,
        target == seq![root@] + entries_from(rest, only_dirs),
        1 + rest.len() <= total <= usize::MAX,
    ensures
        building(seq![fresh_slot(root)], 1, rest, only_dirs, target, 0, 0, total),
{
    reveal(building);
    let s = seq![fresh_slot(root)];
    lemma_single_tree(root);
    lemma_next_kept(rest, only_dirs);
    assert(entries(s).drop_first() =~= Seq::<FsEntryView>::empty());
    assert(depths(s) =~= seq![0int]);
}

/// The builder ends when the walk does: the tree is built.
pub proof fn lemma_building_ends(
    s: Seq<Slot>,
    curr: usize,
    only_dirs: bool,
    target: Seq<FsEntryView>,
    n_files: usize,
    n_dirs: usize,
    total: int,
)
    requires
        building(s, curr, Seq::empty(), only_dirs, target, n_files, n_dirs, total),
    ensures
        is_tree(s),
        entries(s) == target,
        preorder(entry_depths(target)),
        n_dirs == dirs_in(entries(s).drop_first()),
        n_files == files_in(entries(s).drop_first()),
{
    reveal(building);
    lemma_tree_shape(s);
    lemma_entry_depths(s);
    assert(entries(s) + Seq::<FsEntryView>::empty() =~= entries(s));
}

/// An item that is not kept changes nothing.
pub proof fn lemma_building_skips(
    s: Seq<Slot>,
    curr: usize,
    rest: Seq<WalkItem>,
    only_dirs: bool,
    target: Seq<FsEntryView>,
    n_files: usize,
    n_dirs: usize,
    total: int,
)
    requires
        building(s, curr, rest, only_dirs, target, n_files, n_dirs, total),
        rest.len() > 0,
        !keeps(rest[0], only_dirs),
    ensures
        building(s, curr, rest.drop_first(), only_dirs, target, n_files, n_dirs, total),
{
    reveal(building);
    lemma_next_kept(rest.drop_first(), only_dirs);
}

/// An item that is kept: where its entry is to go, and why there is no tree
/// if its depth does not fit there.
pub proof fn lemma_building_takes(
    s: Seq<Slot>,
    curr: usize,
    rest: Seq<WalkItem>,
    only_dirs: bool,
    target: Seq<FsEntryView>,
    n_files: usize,
    n_dirs: usize,
    total: int,
)
    requires
        building(s, curr, rest, only_dirs, target, n_files, n_dirs, total),
        rest.len() > 0,
        keeps(rest[0], only_dirs),
    ensures
        is_tree(s),
        1 <= curr <= s.len() < usize::MAX,
        !s[curr - 1].removed,
        subtree_end(depths(s), curr - 1) == s.len(),
        n_files + n_dirs < usize::MAX,
        rest[0]->Entry_0.depth != depths(s)[curr - 1] + 1 ==> !preorder(entry_depths(target)),
{
    reveal(building);
    let de = rest[0]->Entry_0;
    let t = rest.drop_first();
    lemma_tree_shape(s);
    lemma_tree_node(s, curr);
    lemma_entry_depths(s);
    if preorder(entry_depths(target)) {
        let first = placed(de, t, only_dirs);
        lemma_bad_depth(target, entries(s), seq![first] + entries_from(t, only_dirs));
        assert(next_kept(rest, only_dirs) == 0);
        assert(entries(s).last().de.depth == depths(s).last());
    }
}

/// The state of the builder after the entry of a kept item was placed below
/// `curr` and the builder went on to `next`.
pub proof fn lemma_building_placed(
    s: Seq<Slot>,
    curr: usize,
    rest: Seq<WalkItem>,
    only_dirs: bool,
    target: Seq<FsEntryView>,
    n_files: usize,
    n_dirs: usize,
    total: int,
    fse: FsEntry,
    place: DepthChange,
    next: usize,
)
    requires
        building(s, curr, rest, only_dirs, target, n_files, n_dirs, total),
        rest.len() > 0,
        keeps(rest[0], only_dirs),
        fse.de == rest[0]->Entry_0,
        fse@ == placed(rest[0]->Entry_0, rest.drop_first(), only_dirs),
        fse.de.depth == depths(s)[curr - 1] + 1,
        place == (if next_kept(rest.drop_first(), only_dirs) < rest.drop_first().len() {
            DepthChange::between(
                rest.drop_first()[next_kept(rest.drop_first(), only_dirs)]->Entry_0.depth,
                fse.de.depth,
            )
        } else {
            DepthChange::Last(0)
        }),
        1 <= next <= with_child(s, curr, fse).len(),
        subtree_end(depths(with_child(s, curr, fse)), next - 1) == with_child(
            s,
            curr,
            fse,
        ).len(),
        depths(with_child(s, curr, fse))[next - 1] == depth_after(fse.de.depth as int, place),
    ensures
        building(
            with_child(s, curr, fse),
            next,
            rest.drop_first().skip(next_kept(rest.drop_first(), only_dirs)),
            only_dirs,
            target,
            if points_to_dir(fse.de) {
                n_files
            } else {
                (n_files + 1) as usize
            },
            if points_to_dir(fse.de) {
                (n_dirs + 1) as usize
            } else {
                n_dirs
            },
            total,
        ),
        rest.drop_first().skip(next_kept(rest.drop_first(), only_dirs)).len() < rest.len(),
{
    reveal(building);
    let t = rest.drop_first();
    let k = next_kept(t, only_dirs);
    let after = t.skip(k);
    let s2 = with_child(s, curr, fse);
    lemma_tree_shape(s);
    lemma_with_child(s, curr, fse);
    lemma_next_kept(t, only_dirs);
    lemma_dirs_push(entries(s).drop_first(), fse@);
    assert(entries(s2).drop_first() =~= entries(s).drop_first().push(fse@));
    assert(entries(s2) + entries_from(after, only_dirs) =~= target);
    assert(depths(s2).last() == fse.de.depth);
    if k < t.len() {
        assert(after[0] == t[k]);
        assert(next_kept(after, only_dirs) == 0);
    } else {
        assert(after.len() == 0);
    }
}

/// Builds the tree for the items of a walk that started at `options.root`.
///
/// The first item is the root. Each later item that is kept becomes a node,
/// in the order of the walk, below the node that its depth calls for; an
/// entry that the walk could not open becomes a restricted directory. The
/// result holds the arena, the handle of the root, and how many files and
/// directories there are below the root.
pub fn fs_to_tree(options: &FsOptions, items: Vec<WalkItem>) -> (r: Result<
    (Arena<FsEntry>, usize, usize, usize),
    BuildError,
>)
    ensures
        match r {
            Ok((tree, root, n_files, n_dirs)) => {
                &&& built(items@, options.root@, options.only_dirs) == Ok::<
                    Seq<FsEntryView>,
                    BuildError,
                >(entries(arena_slots(tree)))
                &&& is_tree(arena_slots(tree))
                &&& root == 1
                &&& n_dirs == dirs_in(entries(arena_slots(tree)).drop_first())
                &&& n_files == files_in(entries(arena_slots(tree)).drop_first())
            },
            Err(e) => built(items@, options.root@, options.only_dirs) == Err::<
                Seq<FsEntryView>,
                BuildError,
            >(e),
        },
{
    let only_dirs = options.only_dirs;
    let ghost all = items@;
    let ghost total = items@.len() as int;
    let ghost target = tree_entries(all, options.root@, only_dirs);
    assert(items.len() <= usize::MAX);
    let mut walk = PutBack::new(items);
    let mut tree = arena_new();
    let root_de = match walk.next() {
        None => {
            return Err(BuildError::NoEntry);
        },
        Some(WalkItem::Error(e)) => {
            return Err(BuildError::Root(e));
        },
        Some(WalkItem::Entry(de)) => de,
    };
    if root_de.depth != 0 {
        assert(entry_depths(target)[0] == root_de.depth);
        return Err(BuildError::Malformed);
    }
    let root_fse = root_to_fsentry(options.root.as_str(), root_de);
    proof {
        assert(Seq::<Slot>::empty().push(fresh_slot(root_fse)) =~= seq![fresh_slot(root_fse)]);
        lemma_building_starts(root_fse, walk@, only_dirs, target, total);
    }
    let root = arena_new_node(&mut tree, root_fse);
    let mut n_files: usize = 0;
    let mut n_dirs: usize = 0;
    let mut curr = root;
    loop
        invariant_except_break
            building(
                arena_slots(tree),
                curr,
                walk@,
                only_dirs,
                target,
                n_files,
                n_dirs,
                total,
            ),
        invariant
            all == items@,
            all.len() >= 1,
            all[0] is Entry,
            target == tree_entries(all, options.root@, only_dirs),
            only_dirs == options.only_dirs,
            root == 1,
        ensures
            is_tree(arena_slots(tree)),
            entries(arena_slots(tree)) == target,
            preorder(entry_depths(target)),
            n_dirs == dirs_in(entries(arena_slots(tree)).drop_first()),
            n_files == files_in(entries(arena_slots(tree)).drop_first()),
        decreases walk@.len(),
    {
        let ghost s = arena_slots(tree);
        let ghost c = walk@;
        match walk.next() {
            None => {
                proof {
                    assert(c =~= Seq::<WalkItem>::empty());
                    lemma_building_ends(s, curr, only_dirs, target, n_files, n_dirs, total);
                }
                break ;
            },
            Some(WalkItem::Error(_)) => {
                proof {
                    lemma_building_skips(s, curr, c, only_dirs, target, n_files, n_dirs, total);
                }
            },
            Some(WalkItem::Entry(de)) => {
                let is_dir = is_or_points_to_dir(&de);
                if !is_dir && only_dirs {
                    proof {
                        lemma_building_skips(
                            s,
                            curr,
                            c,
                            only_dirs,
                            target,
                            n_files,
                            n_dirs,
                            total,
                        );
                    }
                    continue ;
                }
                let mut fse = de_to_fsentry(de);
                let place = determine_place_in_tree(&mut walk, &mut fse, only_dirs);
                proof {
                    lemma_building_takes(s, curr, c, only_dirs, target, n_files, n_dirs, total);
                }
                let cd = arena_data(&tree, curr).de.depth;
                if cd == usize::MAX || fse.de.depth != cd + 1 {
                    return Err(BuildError::Malformed);
                }
                let ghost before_files = n_files;
                let ghost before_dirs = n_dirs;
                if is_dir {
                    n_dirs += 1;
                } else {
                    n_files += 1;
                }
                let next = insert_entry(&mut tree, curr, fse, place);
                proof {
                    lemma_building_placed(
                        s,
                        curr,
                        c,
                        only_dirs,
                        target,
                        before_files,
                        before_dirs,
                        total,
                        fse,
                        place,
                        next,
                    );
                }
                curr = next;
            },
        }
    }
    Ok((tree, root, n_files, n_dirs))
}

} // verus!
