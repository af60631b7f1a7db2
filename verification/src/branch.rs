//! The tree drawn with plain indents: every level of depth is one indent,
//! with no bars to connect siblings.

use vstd::prelude::*;
use vstd::string::*;
use crate::entry::{name_text, path_to_string, PathName, WalkItem};
use crate::fs::{built, BuildError};
use crate::render::{lemma_joined, END_BRANCH, MID_BRANCH};
use crate::lines::{lemma_line, PrefixPiece};
use crate::tree::{first_view, Tree, TreeView};

verus! {

pub const INDENT: &'static str = "    ";

/// So many indents in a row.
pub open spec fn indent_text(n: nat) -> Seq<char>
    decreases n,
{
    if n == 0 {
        Seq::empty()
    } else {
        indent_text((n - 1) as nat) + INDENT@
    }
}

/// The line for an entry: its indents, the branch that leads to it, a blank
/// and its name. An entry whose path has no last component gets no line.
pub open spec fn branch_text(entry: PathName, last: bool, indent: nat) -> Seq<char> {
    if entry is Missing {
        Seq::empty()
    } else {
        indent_text(indent) + (if last {
            END_BRANCH@
        } else {
            MID_BRANCH@
        }) + " "@ + name_text(entry) + "\n"@
    }
}

/// The line for the entry of row `l`: one indent for each level below the
/// first.
pub open spec fn branch_row(v: TreeView, l: int) -> Seq<char> {
    let prefix = v.lines.lines[l].prefix;
    if prefix.len() == 0 {
        Seq::empty()
    } else {
        branch_text(
            v.entries[v.lines.lines[l].node - 1].de.file_name,
            prefix.last() == PrefixPiece::EndBranch,
            (prefix.len() - 1) as nat,
        )
    }
}

/// The lines for the rows from row `from` on, in depth-first order.
pub open spec fn branch_rows(v: TreeView, from: int) -> Seq<char>
    decreases v.lines.lines.len() - from,
{
    if 0 <= from < v.lines.lines.len() {
        branch_row(v, from) + branch_rows(v, from + 1)
    } else {
        Seq::empty()
    }
}

/// The line for the root: the directory as it was given.
pub fn draw_root(entry: &str) -> (s: String)
    ensures
        s@ == entry@ + "\n"@,
{
    let mut s = entry.to_owned();
    s.append("\n");
    s
}

/// The line for an entry below the root.
pub fn draw_branch(entry: &PathName, last: bool, indent: usize) -> (s: String)
    ensures
        s@ == branch_text(*entry, last, indent as nat),
{
    match entry {
        PathName::Missing => String::new(),
        _ => {
            let mut s = String::new();
            let mut i: usize = 0;
            while i < indent
                invariant
                    i <= indent,
                    s@ == indent_text(i as nat),
                decreases indent - i,
            {
                s.append(INDENT);
                i += 1;
            }
            s.append(if last { END_BRANCH } else { MID_BRANCH });
            s.append(" ");
            s.append(path_to_string(entry).as_str());
            s.append("\n");
            s
        },
    }
}

/// The lines for the rows of a tree below the root.
pub fn draw_tree(t: &Tree) -> (s: String)
    requires
        t.wf(),
    ensures
        s@ == branch_rows(t@, 1),
{
    let count = t.line_count();
    let mut s = String::new();
    let mut i: usize = 1;
    while i < count
        invariant
            t.wf(),
            count == t@.entries.len(),
            count == t@.lines.lines.len(),
            1 <= i <= count,
            s@ + branch_rows(t@, i as int) == branch_rows(t@, 1),
        decreases count - i,
    {
        proof {
            t.lemma_wf();
            lemma_line(t@.lines, t@.depths(), i as int);
        }
        let ghost before = s@;
        let line = t.line(i);
        let n = line.prefix.len();
        if n > 0 {
            let last = match line.prefix[n - 1] {
                PrefixPiece::EndBranch => true,
                _ => false,
            };
            s.append(draw_branch(&t.entry(line.node).de.file_name, last, n - 1).as_str());
        }
        proof {
            lemma_joined(before, branch_row(t@, i as int), branch_rows(t@, i + 1), before);
        }
        i += 1;
    }
    proof {
        lemma_joined(s@, s@, s@, s@);
    }
    s
}

/// Draw the tree, starting with the given directory: the line of the root,
/// then a line for every entry of the walk that is kept.
pub fn draw_rooted(dir: &str, items: Vec<WalkItem>) -> (r: Result<String, BuildError>)
    ensures
        match r {
            Ok(s) => built(items@, dir@, false) matches Ok(es) && s@ == dir@ + "\n"@
                + branch_rows(first_view(es), 1),
            Err(e) => built(items@, dir@, false) == Err::<Seq<crate::entry::FsEntryView>, BuildError>(
                e,
            ),
        },
{
    match Tree::new_from_dir(dir, items) {
        Ok(t) => {
            let mut s = draw_root(dir);
            s.append(draw_tree(&t).as_str());
            Ok(s)
        },
        Err(e) => Err(e),
    }
}

} // verus!
