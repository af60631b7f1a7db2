//! The tree drawn with bars that connect siblings, without marks and
//! without a summary.

use vstd::prelude::*;
use vstd::string::*;
use crate::entry::{name_text, path_to_string, PathName, WalkItem};
use crate::fs::{built, BuildError};
use crate::render::{lemma_joined, prefix_text, END_BRANCH, MID_BRANCH};
use crate::lines::{lemma_line, PrefixPiece};
use crate::tree::{first_view, Tree, TreeView};

verus! {

/// The line for an entry: what stands in front of its branch, the branch, a
/// blank and its name. An entry whose path has no last component gets no
/// line.
pub open spec fn branch_text(entry: PathName, last: bool, prefix: Seq<char>) -> Seq<char> {
    if entry is Missing {
        Seq::empty()
    } else {
        prefix + (if last {
            END_BRANCH@
        } else {
            MID_BRANCH@
        }) + " "@ + name_text(entry) + "\n"@
    }
}

/// The line for the entry of row `l`: its indents in front of its branch.
pub open spec fn branch_row(v: TreeView, l: int) -> Seq<char> {
    let prefix = v.lines.lines[l].prefix;
    if prefix.len() == 0 {
        Seq::empty()
    } else {
        branch_text(
            v.entries[v.lines.lines[l].node - 1].de.file_name,
            prefix.last() == PrefixPiece::EndBranch,
            prefix_text(prefix.drop_last()),
        )
    }
}

/// The lines for the rows from row `from` on, in depth-first order.
pub open spec fn branch_rows(v: TreeView, from: int) -> Seq<char>
    decreases v.lines.lines.len() - from,
{
    if 0 <= from < v.lines.lines.len() {
        branch_row(v, from) + branch_rows(v, from + 1)
    } else {
        Seq::empty()
    }
}

/// The line for the root: the directory as it was given.
pub fn draw_root(entry: &str) -> (s: String)
    ensures
        s@ == entry@ + "\n"@,
{
    let mut s = entry.to_owned();
    s.append("\n");
    s
}

/// The line for an entry below the root.
pub fn draw_branch(entry: &PathName, last: bool, prefix: &str) -> (s: String)
    ensures
        s@ == branch_text(*entry, last, prefix@),
{
    match entry {
        PathName::Missing => String::new(),
        _ => {
            let mut s = prefix.to_owned();
            s.append(if last { END_BRANCH } else { MID_BRANCH });
            s.append(" ");
            s.append(path_to_string(entry).as_str());
            s.append("\n");
            s
        },
    }
}

/// The text of the pieces of a prefix but the last.
fn indents_string(prefix: &Vec<PrefixPiece>) -> (s: String)
    requires
        prefix@.len() > 0,
    ensures
        s@ == prefix_text(prefix@.drop_last()),
{
    let mut acc = String::new();
    let mut i: usize = 0;
    while i + 1 < prefix.len()
        invariant
            i + 1 <= prefix.len(),
            acc@ == prefix_text(prefix@.take(i as int)),
        decreases prefix.len() - i,
    {
        acc.append(
            match prefix[i] {
                PrefixPiece::BarIndent => crate::render::BAR_INDENT,
                PrefixPiece::BlankIndent => crate::render::BLANK_INDENT,
                PrefixPiece::MidBranch => MID_BRANCH,
                PrefixPiece::EndBranch => END_BRANCH,
            },
        );
        i += 1;
        assert(prefix@.take(i as int).drop_last() =~= prefix@.take(i - 1));
    }
    assert(prefix@.take(i as int) =~= prefix@.drop_last());
    acc
}

/// The lines for the rows of a tree below the root.
pub fn draw_tree(t: &Tree) -> (s: String)
    requires
        t.wf(),
    ensures
        s@ == branch_rows(t@, 1),
{
    let count = t.line_count();
    let mut s = String::new();
    let mut i: usize = 1;
    while i < count
        invariant
            t.wf(),
            count == t@.entries.len(),
            count == t@.lines.lines.len(),
            1 <= i <= count,
            s@ + branch_rows(t@, i as int) == branch_rows(t@, 1),
        decreases count - i,
    {
        proof {
            t.lemma_wf();
            lemma_line(t@.lines, t@.depths(), i as int);
        }
        let ghost before = s@;
        let line = t.line(i);
        let n = line.prefix.len();
        if n > 0 {
            let last = match line.prefix[n - 1] {
                PrefixPiece::EndBranch => true,
                _ => false,
            };
            let idt = indents_string(&line.prefix);
            s.append(
                draw_branch(&t.entry(line.node).de.file_name, last, idt.as_str()).as_str(),
            );
        }
        proof {
            lemma_joined(before, branch_row(t@, i as int), branch_rows(t@, i + 1), before);
        }
        i += 1;
    }
    proof {
        lemma_joined(s@, s@, s@, s@);
    }
    s
}

/// Draw the tree, starting with the given directory: the line of the root,
/// then a line for every entry of the walk that is kept.
pub fn draw_rooted(dir: &str, items: Vec<WalkItem>) -> (r: Result<String, BuildError>)
    ensures
        match r {
            Ok(s) => built(items@, dir@, false) matches Ok(es) && s@ == dir@ + "\n"@
                + branch_rows(first_view(es), 1),
            Err(e) => built(items@, dir@, false) == Err::<Seq<crate::entry::FsEntryView>, BuildError>(
                e,
            ),
        },
{
    match Tree::new_from_dir(dir, items) {
        Ok(t) => {
            let mut s = draw_root(dir);
            s.append(draw_tree(&t).as_str());
            Ok(s)
        },
        Err(e) => Err(e),
    }
}

} // verus!
