//! What the renderer is handed: the rows as text, and the window of rows to
//! show around the focus.

use vstd::prelude::*;
use vstd::string::*;
use vstd::utf8::encode_utf8;
use crate::color::{bg_reset, bg_text, fg_reset, fg_text, Color};
use crate::entry::{FileType, FileTypeView, FsEntryView};
use crate::lines::{lemma_line, PrefixPiece};
use crate::tree::{summary_text, Tree, TreeView};

verus! {

pub const MID_BRANCH: &'static str = "├──";

pub const END_BRANCH: &'static str = "└──";

pub const BLANK_INDENT: &'static str = "    ";

pub const BAR_INDENT: &'static str = "│   ";

pub const FOLD_MARK: &'static str = "*";

pub const RESTRICTED_MARK: &'static str = " [error opening dir]";

pub const LINK_MARK: &'static str = " -> ";

/// The colours of the display.
#[derive(Debug, Clone, Copy, PartialEq, Eq, Structural)]
pub struct RenderOptions {
    pub fg_color: Color,
    pub bg_color: Color,
}

impl RenderOptions {
    /// White text; the focus on blue.
    pub fn new() -> (o: Self)
        ensures
            o == (RenderOptions { fg_color: Color::White, bg_color: Color::Blue }),
    {
        Self { fg_color: Color::White, bg_color: Color::Blue }
    }

    /// Set the colour of the text.
    pub fn fg_color(&mut self, color: Color) -> (o: &mut Self)
        ensures
            *o == (RenderOptions { fg_color: color, ..*old(self) }),
            *final(self) == *final(o),
    {
        self.fg_color = color;
        self
    }

    /// Set the colour behind the entry in focus.
    pub fn bg_color(&mut self, color: Color) -> (o: &mut Self)
        ensures
            *o == (RenderOptions { bg_color: color, ..*old(self) }),
            *final(self) == *final(o),
    {
        self.bg_color = color;
        self
    }
}

/// The text of one piece of a prefix.
pub open spec fn piece_text(piece: PrefixPiece) -> Seq<char> {
    match piece {
        PrefixPiece::BarIndent => BAR_INDENT@,
        PrefixPiece::BlankIndent => BLANK_INDENT@,
        PrefixPiece::MidBranch => MID_BRANCH@,
        PrefixPiece::EndBranch => END_BRANCH@,
    }
}

/// The text of a prefix: the texts of its pieces, one after the other.
pub open spec fn prefix_text(prefix: Seq<PrefixPiece>) -> Seq<char>
    decreases prefix.len(),
{
    if prefix.len() == 0 {
        Seq::empty()
    } else {
        prefix_text(prefix.drop_last()) + piece_text(prefix.last())
    }
}

/// What follows the name of an entry: a mark on a folded directory, a mark
/// on a directory that could not be opened, the destination of a link.
pub open spec fn suffix_text(e: FsEntryView, folded: bool) -> Seq<char> {
    match e.ft {
        FileTypeView::File => Seq::empty(),
        FileTypeView::Dir => if folded {
            FOLD_MARK@
        } else {
            Seq::empty()
        },
        FileTypeView::RestrictedDir => RESTRICTED_MARK@,
        FileTypeView::LinkTo(dest) => LINK_MARK@ + dest,
        FileTypeView::Stdin => "<stdin>"@,
    }
}

/// The name of the entry on row `l` with what follows it.
pub open spec fn label_text(v: TreeView, l: int) -> Seq<char> {
    let e = v.entries[v.lines.lines[l].node - 1];
    e.name + suffix_text(e, v.lines.folded.contains((v.lines.lines[l].node - 1) as usize))
}

/// The text of row `l`: its prefix, a blank, and the entry.
pub open spec fn row_text(v: TreeView, l: int) -> Seq<char> {
    prefix_text(v.lines.lines[l].prefix) + " "@ + label_text(v, l)
}

/// The text of the rows of the list from row `from` on, each row on a line
/// of its own.
pub open spec fn rows_text(v: TreeView, from: int) -> Seq<char>
    decreases v.lines.lines.len() - from,
{
    if 0 <= from < v.lines.lines.len() && from < v.lines.lines[from].next
        <= v.lines.lines.len() {
        row_text(v, from) + "\n"@ + rows_text(v, v.lines.lines[from].next as int)
    } else {
        Seq::empty()
    }
}

/// The whole tree as text: the root's name, the rows of the list below it,
/// an empty line and the summary.
pub open spec fn tree_text(v: TreeView) -> Seq<char> {
    v.entries[0].name + "\n"@ + rows_text(v, 1) + "\n"@ + summary_text(v.n_dirs, v.n_files)
        + "\n"@
}

/// The number of bytes that a text takes.
pub open spec fn text_len(s: Seq<char>) -> int {
    encode_utf8(s).len() as int
}

/// How many lines of the display row `l` takes where a line holds `width`
/// bytes: one, and one more for every full line that its prefix, a blank and
/// its name would fill.
pub open spec fn visual_lines(v: TreeView, l: int, width: int) -> int {
    1 + (v.lines.lines[l].prefix.len() + 1 + text_len(
        v.entries[v.lines.lines[l].node - 1].name,
    )) / width
}

/// Going back through the list from row `start`: as long as less than
/// `budget` is spent and there is a row before, the visual lines of the row
/// at hand are spent and the walk steps back. Gives the row that the walk
/// reaches and what it has spent.
pub open spec fn roll_back(v: TreeView, start: int, spent: int, budget: int, width: int) -> (
    int,
    int,
)
    decreases start,
{
    let prev = v.lines.lines[start].prev;
    if spent < budget && prev is Some && prev.unwrap() < start {
        roll_back(v, prev.unwrap() as int, spent + visual_lines(v, start, width), budget, width)
    } else {
        (start, spent)
    }
}

/// Going on through the list from row `end`: as long as less than `budget`
/// is spent and there is a row after, the visual lines of the row at hand
/// are spent and the walk steps on. Gives the bound that the walk reaches,
/// what it has spent, and whether it ran out of rows: the bound is then the
/// index after the last row that it reached.
pub open spec fn roll_forward(v: TreeView, end: int, spent: int, budget: int, width: int) -> (
    int,
    int,
    bool,
)
    decreases v.lines.lines.len() - end,
{
    let next = v.lines.lines[end].next as int;
    if spent >= budget {
        (end, spent, false)
    } else if end < next < v.lines.lines.len() {
        roll_forward(v, next, spent + visual_lines(v, end, width), budget, width)
    } else {
        (end + 1, spent, true)
    }
}

/// The window of rows around row `line` for a display of `n` lines of
/// `width` bytes: half the lines above the row and the rest from the row on;
/// what is not used above is added below, and what is then not used below is
/// added above. Gives the first row and the bound after the last.
pub open spec fn window(v: TreeView, line: int, n: int, width: int) -> (int, int) {
    let space = n / 2;
    let (start, above) = roll_back(v, line, 0, space, width);
    let start_diff = if above < space {
        space - above
    } else {
        0
    };
    let end_max = space + n % 2 + start_diff;
    let (end, below, ran_out) = roll_forward(v, line, 0, end_max, width);
    let end_diff = if ran_out {
        end_max - below - 1
    } else {
        0
    };
    (roll_back(v, start, 0, end_diff, width).0, end)
}

/// The text of a row of the window: the row's text, with the entry on the
/// colour `bg` if it is in focus, and the end of the line unless the row is
/// the last. The root's row has no blank before the name.
pub open spec fn painted_row(v: TreeView, l: int, focus: bool, last: bool, bg: Color) -> Seq<
    char,
> {
    prefix_text(v.lines.lines[l].prefix) + (if v.lines.lines[l].prefix.len() == 0 {
        Seq::<char>::empty()
    } else {
        " "@
    }) + (if focus {
        bg_text(bg.code()) + label_text(v, l) + "\x1B[49m"@
    } else {
        label_text(v, l)
    }) + (if last {
        Seq::<char>::empty()
    } else {
        "\r\n"@
    })
}

/// The text of the rows of the list from row `from` up to the bound `end`,
/// the row `y` in focus.
pub open spec fn painted_rows(v: TreeView, from: int, end: int, y: int, bg: Color) -> Seq<char>
    decreases v.lines.lines.len() - from,
{
    if 0 <= from < end && from < v.lines.lines.len() && from < v.lines.lines[from].next
        <= v.lines.lines.len() {
        let next = v.lines.lines[from].next as int;
        painted_row(v, from, from == y, next >= v.lines.lines.len() || next >= end, bg)
            + painted_rows(v, next, end, y, bg)
    } else {
        Seq::empty()
    }
}

/// A view onto a tree for rendering.
pub struct TreeRender<'a> {
    pub tree: &'a mut Tree,
    pub opts: RenderOptions,
}

impl<'a> View for TreeRender<'a> {
    type V = TreeView;

    /// The tree that is rendered, as a value.
    open spec fn view(&self) -> TreeView {
        self.tree@
    }
}

impl<'a> TreeRender<'a> {
    /// The tree that is rendered is in order.
    pub open spec fn wf(&self) -> bool {
        self.tree.wf()
    }

    pub fn new(tree: &'a mut Tree, opts: RenderOptions) -> (r: Self)
        ensures
            *r.tree == *old(tree),
            r@ == old(tree)@,
            r.wf() == old(tree).wf(),
            r.opts == opts,
            *final(tree) == *final(r.tree),
    {
        Self { tree, opts }
    }

    pub fn focus_up(&mut self)
        requires
            old(self).wf(),
        ensures
            final(self).wf(),
            final(self)@ == old(self)@.focus_up(),
            final(self).opts == old(self).opts,
            *final(final(self).tree) == *final(old(self).tree),
    {
        self.tree.focus_up();
    }

    pub fn focus_down(&mut self)
        requires
            old(self).wf(),
        ensures
            final(self).wf(),
            final(self)@ == old(self)@.focus_down(),
            final(self).opts == old(self).opts,
            *final(final(self).tree) == *final(old(self).tree),
    {
        self.tree.focus_down();
    }

    pub fn focus_left(&mut self)
        requires
            old(self).wf(),
        ensures
            final(self).wf(),
            final(self)@ == old(self)@.focus_left(),
            final(self).opts == old(self).opts,
            *final(final(self).tree) == *final(old(self).tree),
    {
        self.tree.focus_left();
    }

    pub fn focus_right(&mut self)
        requires
            old(self).wf(),
        ensures
            final(self).wf(),
            final(self)@ == old(self)@.focus_right(),
            final(self).opts == old(self).opts,
            *final(final(self).tree) == *final(old(self).tree),
    {
        self.tree.focus_right();
    }

    pub fn toggle_focus_fold(&mut self)
        requires
            old(self).wf(),
        ensures
            final(self).wf(),
            final(self)@ == old(self)@.toggle_focus_fold(),
            final(self).opts == old(self).opts,
            *final(final(self).tree) == *final(old(self).tree),
    {
        self.tree.toggle_focus_fold();
    }

    /// The text of a prefix.
    pub fn prefix_string(&self, prefix: &Vec<PrefixPiece>) -> (s: String)
        ensures
            s@ == prefix_text(prefix@),
    {
        prefix_to_string(prefix)
    }

    /// What follows the name of the entry of `node`.
    pub fn suffix_for_node(&self, node: usize) -> (s: String)
        requires
            self.wf(),
            1 <= node <= self@.entries.len(),
        ensures
            s@ == suffix_text(self@.entries[node - 1], self@.lines.folded.contains((node - 1) as usize)),
    {
        suffix_of(self.tree, node)
    }
}

/// Texts put together in any grouping are the same text.
pub proof fn lemma_joined(a: Seq<char>, b: Seq<char>, c: Seq<char>, d: Seq<char>)
    ensures
        a + ((b + c) + d) == ((a + b) + c) + d,
        a + (b + c) == (a + b) + c,
        a + Seq::<char>::empty() == a,
{
    assert(a + ((b + c) + d) =~= ((a + b) + c) + d);
    assert(a + (b + c) =~= (a + b) + c);
    assert(a + Seq::<char>::empty() =~= a);
}

/// The text of the rows from a row on: that row, then the rows from the
/// next one on.
pub proof fn lemma_rows_text(v: TreeView, from: int)
    requires
        0 <= from < v.lines.lines.len(),
        from < v.lines.lines[from].next <= v.lines.lines.len(),
    ensures
        rows_text(v, from) == row_text(v, from) + "\n"@ + rows_text(
            v,
            v.lines.lines[from].next as int,
        ),
        rows_text(v, v.lines.lines.len() as int) == Seq::<char>::empty(),
{
}

/// The text of the rows of a window from a row on: that row, then the rows
/// from the next one on; nothing once the bound is reached.
pub proof fn lemma_painted_rows(v: TreeView, from: int, end: int, y: int, bg: Color)
    requires
        0 <= from,
    ensures
        from < end && from < v.lines.lines.len() && from < v.lines.lines[from].next
            <= v.lines.lines.len() ==> painted_rows(v, from, end, y, bg) == painted_row(
            v,
            from,
            from == y,
            v.lines.lines[from].next >= v.lines.lines.len() || v.lines.lines[from].next >= end,
            bg,
        ) + painted_rows(v, v.lines.lines[from].next as int, end, y, bg),
        from >= end || from >= v.lines.lines.len() ==> painted_rows(v, from, end, y, bg)
            == Seq::<char>::empty(),
{
}

/// The text of a prefix.
pub fn prefix_to_string(prefix: &Vec<PrefixPiece>) -> (s: String)
    ensures
        s@ == prefix_text(prefix@),
{
    let mut acc = String::new();
    let mut i: usize = 0;
    while i < prefix.len()
        invariant
            i <= prefix.len(),
            acc@ == prefix_text(prefix@.take(i as int)),
        decreases prefix.len() - i,
    {
        acc.append(
            match prefix[i] {
                PrefixPiece::BarIndent => BAR_INDENT,
                PrefixPiece::BlankIndent => BLANK_INDENT,
                PrefixPiece::MidBranch => MID_BRANCH,
                PrefixPiece::EndBranch => END_BRANCH,
            },
        );
        i += 1;
        assert(prefix@.take(i as int).drop_last() =~= prefix@.take(i - 1));
    }
    assert(prefix@.take(i as int) =~= prefix@);
    acc
}

/// What follows the name of the entry of `node` in a tree.
pub fn suffix_of(tree: &Tree, node: usize) -> (s: String)
    requires
        tree.wf(),
        1 <= node <= tree@.entries.len(),
    ensures
        s@ == suffix_text(tree@.entries[node - 1], tree@.lines.folded.contains((node - 1) as usize)),
{
    match &tree.entry(node).ft {
        FileType::File => String::new(),
        FileType::Dir => {
            if tree.is_folded(node - 1) {
                FOLD_MARK.to_owned()
            } else {
                String::new()
            }
        },
        FileType::RestrictedDir => RESTRICTED_MARK.to_owned(),
        FileType::LinkTo(dest) => {
            let mut s = LINK_MARK.to_owned();
            s.append(dest.as_str());
            s
        },
        FileType::Stdin => "<stdin>".to_owned(),
    }
}

/// The name of the entry on row `l` of a tree with what follows it.
fn label_string(tree: &Tree, l: usize) -> (s: String)
    requires
        tree.wf(),
        l < tree@.entries.len(),
    ensures
        s@ == label_text(tree@, l as int),
{
    proof {
        tree.lemma_wf();
        lemma_line(tree@.lines, tree@.depths(), l as int);
    }
    let line = tree.line(l);
    let mut s = tree.entry(line.node).name.clone();
    s.append(suffix_of(tree, line.node).as_str());
    s
}

/// The text of row `l` of a tree.
fn row_string(tree: &Tree, l: usize) -> (s: String)
    requires
        tree.wf(),
        l < tree@.entries.len(),
    ensures
        s@ == row_text(tree@, l as int),
{
    let line = tree.line(l);
    let mut s = prefix_to_string(&line.prefix);
    s.append(" ");
    s.append(label_string(tree, l).as_str());
    s
}

/// A whole tree as text: the root's name, then each row of the list on a
/// line of its own, an empty line and the summary.
pub fn tree_string(tree: &Tree) -> (s: String)
    requires
        tree.wf(),
    ensures
        s@ == tree_text(tree@),
{
    let ghost v = tree@;
    let count = tree.line_count();
    let mut s = tree.entry(1).name.clone();
    s.append("\n");
    let ghost head = s@;
    let mut l_ind: usize = 1;
    while l_ind < count
        invariant
            tree.wf(),
            v == tree@,
            count == v.entries.len(),
            count == v.lines.lines.len(),
            1 <= l_ind <= count,
            s@ + rows_text(v, l_ind as int) == head + rows_text(v, 1),
        decreases count - l_ind,
    {
        let ghost before = s@;
        s.append(row_string(tree, l_ind).as_str());
        s.append("\n");
        let next = tree.line(l_ind).next;
        proof {
            tree.lemma_wf();
            lemma_line(v.lines, v.depths(), l_ind as int);
            lemma_rows_text(v, l_ind as int);
            lemma_joined(before, row_text(v, l_ind as int), "\n"@, rows_text(v, next as int));
        }
        l_ind = next;
    }
    proof {
        assert(rows_text(v, l_ind as int) == Seq::<char>::empty());
        lemma_joined(s@, s@, s@, s@);
    }
    s.append("\n");
    s.append(tree.summary().as_str());
    s.append("\n");
    assert(s@ =~= tree_text(v));
    s
}

impl Tree {
    /// The whole tree as text.
    pub fn to_string(&self) -> (s: String)
        requires
            self.wf(),
        ensures
            s@ == tree_text(self@),
    {
        tree_string(self)
    }
}

/// A number of visual lines as far as a machine word holds it.
pub open spec fn clipped(n: int) -> usize {
    if n > usize::MAX {
        usize::MAX
    } else {
        n as usize
    }
}

impl<'a> TreeRender<'a> {
    /// How many lines of the display row `l_ind` takes where a line holds
    /// `width` bytes.
    pub fn visual_lines_for_line(&self, l_ind: usize, width: usize) -> (r: usize)
        requires
            self.wf(),
            l_ind < self@.entries.len(),
            width > 0,
        ensures
            r == clipped(visual_lines(self@, l_ind as int, width as int)),
            visual_lines(self@, l_ind as int, width as int) >= 1,
    {
        proof {
            self.tree.lemma_wf();
            lemma_line(self@.lines, self@.depths(), l_ind as int);
        }
        let line = self.tree.line(l_ind);
        let pl: u128 = line.prefix.len() as u128 + 1;
        let name = self.tree.entry(line.node).name.as_str();
        let nl: u128 = name.as_bytes().len() as u128;
        assert(nl == text_len(self@.entries[self@.lines.lines[l_ind as int].node - 1].name));
        let lines: u128 = (pl + nl) / (width as u128) + 1;
        assert(lines == visual_lines(self@, l_ind as int, width as int));
        if lines > usize::MAX as u128 {
            usize::MAX
        } else {
            lines as usize
        }
    }

    /// Walks back from row `start` while less than `budget` visual lines are
    /// spent. Gives the row that is reached and what was left of the budget
    /// when the rows ran out.
    fn roll_back_from(&self, start: usize, budget: usize, width: usize) -> (r: (usize, usize))
        requires
            self.wf(),
            start < self@.entries.len(),
            width > 0,
        ensures
            r.0 == roll_back(self@, start as int, 0, budget as int, width as int).0,
            r.0 <= start,
            r.1 <= budget,
            r.1 == (if roll_back(self@, start as int, 0, budget as int, width as int).1 < budget {
                budget - roll_back(self@, start as int, 0, budget as int, width as int).1
            } else {
                0
            }),
    {
        let ghost v = self@;
        let ghost mut spent: int = 0;
        let mut at = start;
        let mut left: usize = 0;
        let mut i: usize = 0;
        loop
            invariant_except_break
                i == clipped(spent),
                left == 0,
            invariant
                self.wf(),
                v == self@,
                width > 0,
                at <= start < v.entries.len(),
                spent >= 0,
                roll_back(v, start as int, 0, budget as int, width as int) == roll_back(
                    v,
                    at as int,
                    spent,
                    budget as int,
                    width as int,
                ),
            ensures
                roll_back(v, start as int, 0, budget as int, width as int) == (at as int, spent),
                left == (if spent < budget {
                    budget - spent
                } else {
                    0
                }),
            decreases at,
        {
            proof {
                self.tree.lemma_wf();
                lemma_line(v.lines, v.depths(), at as int);
            }
            if i >= budget {
                break ;
            }
            match self.tree.line(at).prev {
                Some(prev) => {
                    i = i.saturating_add(self.visual_lines_for_line(at, width));
                    proof {
                        spent = spent + visual_lines(v, at as int, width as int);
                    }
                    at = prev;
                },
                None => {
                    left = budget - i;
                    break ;
                },
            }
        }
        (at, left)
    }

    /// Walks on from row `end` while less than `budget` visual lines are
    /// spent. Gives the bound that is reached and, when the rows ran out,
    /// what was left of the budget but for the line of the last row.
    fn roll_forward_from(&self, end: usize, budget: usize, width: usize) -> (r: (usize, usize))
        requires
            self.wf(),
            end < self@.entries.len(),
            width > 0,
        ensures
            r.0 == roll_forward(self@, end as int, 0, budget as int, width as int).0,
            end <= r.0 <= self@.entries.len(),
            budget > 0 ==> end < r.0,
            r.1 == (if roll_forward(self@, end as int, 0, budget as int, width as int).2 {
                budget - roll_forward(self@, end as int, 0, budget as int, width as int).1 - 1
            } else {
                0
            }),
    {
        let ghost v = self@;
        let ghost mut spent: int = 0;
        let count = self.tree.line_count();
        let mut at = end;
        let mut left: usize = 0;
        let mut i: usize = 0;
        loop
            invariant_except_break
                i == clipped(spent),
                left == 0,
                at < v.entries.len(),
                roll_forward(v, end as int, 0, budget as int, width as int) == roll_forward(
                    v,
                    at as int,
                    spent,
                    budget as int,
                    width as int,
                ),
            invariant
                self.wf(),
                v == self@,
                width > 0,
                count == v.entries.len(),
                count == v.lines.lines.len(),
                end <= at <= v.entries.len(),
                spent >= 0,
                spent == 0 || end < at,
            ensures
                roll_forward(v, end as int, 0, budget as int, width as int).0 == at,
                budget > 0 ==> end < at,
                left == (if roll_forward(v, end as int, 0, budget as int, width as int).2 {
                    budget - roll_forward(v, end as int, 0, budget as int, width as int).1 - 1
                } else {
                    0
                }),
            decreases v.entries.len() - at,
        {
            proof {
                self.tree.lemma_wf();
                lemma_line(v.lines, v.depths(), at as int);
            }
            if i >= budget {
                break ;
            }
            let next = self.tree.line(at).next;
            if next < count {
                i = i.saturating_add(self.visual_lines_for_line(at, width));
                proof {
                    spent = spent + visual_lines(v, at as int, width as int);
                }
                at = next;
            } else {
                at += 1;
                left = budget - i - 1;
                break ;
            }
        }
        (at, left)
    }

    /// Find the bounds of the range of n consecutively renderable lines
    /// around a given line.
    ///
    /// Lines are considered consecutive if they follow each other in the
    /// doubly-linked list in which a line's `next` and `prev` fields comprise
    /// the edges.
    ///
    /// The range will include n/2 lines above and n/2 lines below the given
    /// line. If the given line is within n/2 lines of the top or bottom of
    /// the tree, the remaining space will be used on the other side.
    pub fn bounds_of_range_around_line(&self, line: usize, n: usize, width: usize) -> (r: (
        usize,
        usize,
    ))
        requires
            self.wf(),
            line < self@.entries.len(),
            width > 0,
        ensures
            (r.0 as int, r.1 as int) == window(self@, line as int, n as int, width as int),
            r.0 <= line,
            line <= r.1 <= self@.entries.len(),
            n >= 1 ==> line < r.1,
    {
        let space = n / 2;
        // Roll the start back n/2 spaces. If fewer, save the diff.
        let (start, start_diff) = self.roll_back_from(line, space, width);
        // Roll the end forward n/2 + start_diff spaces. If fewer, save the diff.
        let end_max = space + n % 2 + start_diff;
        let (end, end_diff) = self.roll_forward_from(line, end_max, width);
        // Roll the start back at most an additional end_diff spaces.
        let (start, _) = self.roll_back_from(start, end_diff, width);
        (start, end)
    }

    /// The whole tree as text: the root's name, then each row of the list on
    /// a line of its own, an empty line and the summary.
    pub fn to_string(&self) -> (s: String)
        requires
            self.wf(),
        ensures
            s@ == tree_text(self@),
    {
        tree_string(self.tree)
    }

    /// Render a single line of the tree.
    ///
    /// Uses \r\n as a line ending since when terminal is in raw mode \n
    /// alone does not move the cursor back to the beginning of the line.
    pub fn render_line(&self, ind: usize, focus: bool, last: bool) -> (s: String)
        requires
            self.wf(),
            ind < self@.entries.len(),
        ensures
            s@ == painted_row(self@, ind as int, focus, last, self.opts.bg_color),
    {
        let line = self.tree.line(ind);
        let sep = if line.prefix.len() == 0 { "" } else { " " };
        let ending = if last { "" } else { "\r\n" };
        let label = label_string(self.tree, ind);
        let mut s = prefix_to_string(&line.prefix);
        s.append(sep);
        let ghost head = s@;
        if focus {
            let bg = self.opts.bg_color.bg();
            s.append(bg.as_str());
            s.append(label.as_str());
            s.append(bg_reset());
            proof {
                lemma_joined(head, bg@, label@, "\x1B[49m"@);
            }
        } else {
            s.append(label.as_str());
        }
        s.append(ending);
        proof {
            reveal_strlit("");
            assert(sep@ == (if self@.lines.lines[ind as int].prefix.len() == 0 {
                Seq::<char>::empty()
            } else {
                " "@
            })) by {
                assert(""@ =~= Seq::<char>::empty());
            }
            assert(ending@ == (if last {
                Seq::<char>::empty()
            } else {
                "\r\n"@
            })) by {
                assert(""@ =~= Seq::<char>::empty());
            }
        }
        s
    }

    /// Render at most n consecutive lines of the tree around the focused
    /// node, in the colour of the text.
    ///
    /// Lines are considered consecutive if they are adjacent in the
    /// doubly-linked list of lines in which a line's `next` and `prev`
    /// fields comprise the links.
    pub fn render_around_focus(&self, n: usize, width: usize) -> (s: String)
        requires
            self.wf(),
            width > 0,
        ensures
            ({
                let y = self@.focused_line();
                let (start, end) = window(self@, y, n as int, width as int);
                s@ == fg_text(self.opts.fg_color.code()) + painted_rows(
                    self@,
                    start,
                    end,
                    y,
                    self.opts.bg_color,
                ) + "\x1B[39m"@
            }),
    {
        let ghost v = self@;
        proof {
            self.tree.lemma_wf();
        }
        let count = self.tree.line_count();
        let y = self.tree.focused_line_ind();
        let (mut start, end) = self.bounds_of_range_around_line(y, n, width);
        let ghost first = start as int;
        let mut s = self.opts.fg_color.fg();
        let ghost head = s@;
        while start < end && start < count
            invariant
                self.wf(),
                v == self@,
                count == v.entries.len(),
                count == v.lines.lines.len(),
                s@ + painted_rows(v, start as int, end as int, y as int, self.opts.bg_color)
                    == head + painted_rows(v, first, end as int, y as int, self.opts.bg_color),
            decreases count - start,
        {
            proof {
                self.tree.lemma_wf();
                lemma_line(v.lines, v.depths(), start as int);
            }
            let ghost before = s@;
            let next = self.tree.line(start).next;
            let last = next >= count || next >= end;
            s.append(self.render_line(start, start == y, last).as_str());
            proof {
                lemma_painted_rows(v, start as int, end as int, y as int, self.opts.bg_color);
                lemma_joined(
                    before,
                    painted_row(v, start as int, start == y, last, self.opts.bg_color),
                    painted_rows(v, next as int, end as int, y as int, self.opts.bg_color),
                    before,
                );
            }
            start = next;
        }
        proof {
            lemma_painted_rows(v, start as int, end as int, y as int, self.opts.bg_color);
            lemma_joined(s@, s@, s@, s@);
        }
        s.append(fg_reset());
        s
    }
}

} // verus!
