//! What the window around the focus covers.

use vstd::prelude::*;
use crate::render::{roll_back, roll_forward, visual_lines, window};
use crate::lines::{lemma_line, lemma_lines_len};
use crate::tree::TreeView;

verus! {

/// Row `l` and every row before it on the list take one line of the display
/// each.
pub open spec fn unit_back(v: TreeView, l: int, width: int) -> bool
    decreases l,
{
    let prev = v.lines.lines[l].prev;
    &&& visual_lines(v, l, width) == 1
    &&& (prev is Some && 0 <= prev.unwrap() < l ==> unit_back(v, prev.unwrap() as int, width))
}

/// Row `l` and every row after it on the list take one line of the display
/// each.
pub open spec fn unit_on(v: TreeView, l: int, width: int) -> bool
    decreases v.lines.lines.len() - l,
{
    let next = v.lines.lines[l].next as int;
    &&& visual_lines(v, l, width) == 1
    &&& (0 <= l < next < v.lines.lines.len() ==> unit_on(v, next, width))
}

/// Going back from row `l` to the first row, every row leads on to the row
/// that led back to it.
pub open spec fn linked_back(v: TreeView, l: int) -> bool
    decreases l,
{
    let prev = v.lines.lines[l].prev;
    prev is Some && 0 <= prev.unwrap() < l ==> v.lines.lines[prev.unwrap() as int].next == l
        && linked_back(v, prev.unwrap() as int)
}

/// How many rows the list holds before row `l`.
pub open spec fn above(v: TreeView, l: int) -> int
    decreases l,
{
    let prev = v.lines.lines[l].prev;
    if prev is Some && 0 <= prev.unwrap() < l {
        1 + above(v, prev.unwrap() as int)
    } else {
        0
    }
}

/// How many rows the list holds from row `l` on.
pub open spec fn below(v: TreeView, l: int) -> int
    decreases v.lines.lines.len() - l,
{
    let next = v.lines.lines[l].next as int;
    if 0 <= l < next < v.lines.lines.len() {
        1 + below(v, next)
    } else {
        1
    }
}

/// The lines of the display that the rows of the list from row `from` up to
/// the bound `end` take.
pub open spec fn window_cost(v: TreeView, from: int, end: int, width: int) -> int
    decreases v.lines.lines.len() - from,
{
    if 0 <= from < end && from < v.lines.lines.len() && from < v.lines.lines[from].next
        <= v.lines.lines.len() {
        visual_lines(v, from, width) + window_cost(v, v.lines.lines[from].next as int, end, width)
    } else {
        0
    }
}

/// Row `y` is among the rows of the list from row `from` up to the bound
/// `end`.
pub open spec fn window_has(v: TreeView, from: int, end: int, y: int) -> bool
    decreases v.lines.lines.len() - from,
{
    if 0 <= from < end && from < v.lines.lines.len() && from < v.lines.lines[from].next
        <= v.lines.lines.len() {
        from == y || window_has(v, v.lines.lines[from].next as int, end, y)
    } else {
        false
    }
}

/// The smaller of two numbers.
pub open spec fn least(a: int, b: int) -> int {
    if a <= b {
        a
    } else {
        b
    }
}

/// Where the rows take one line each, going back from row `a` spends one line
/// for each row passed, as far as the budget and the rows before `a` reach;
/// the rows passed are then part of any window that starts where the walk
/// ends.
pub proof fn lemma_roll_back(
    v: TreeView,
    a: int,
    spent: int,
    budget: int,
    width: int,
    end: int,
    y: int,
)
    requires
        v.wf(),
        0 <= a < v.lines.lines.len(),
        a <= end,
        unit_back(v, a, width),
        linked_back(v, a),
    ensures
        ({
            let (s, sp) = roll_back(v, a, spent, budget, width);
            &&& 0 <= s <= a
            &&& linked_back(v, s)
            &&& unit_back(v, s, width)
            &&& sp - spent == (if budget <= spent {
                0
            } else {
                least(budget - spent, above(v, a))
            })
            &&& above(v, s) == above(v, a) - (sp - spent)
            &&& window_cost(v, s, end, width) == (sp - spent) + window_cost(v, a, end, width)
            &&& (window_has(v, a, end, y) ==> window_has(v, s, end, y))
        }),
    decreases a,
{
    lemma_lines_len(v.lines, v.depths());
    lemma_line(v.lines, v.depths(), a);
    let prev = v.lines.lines[a].prev;
    if spent < budget && prev is Some && prev.unwrap() < a {
        let p = prev.unwrap() as int;
        lemma_line(v.lines, v.depths(), p);
        assert(visual_lines(v, a, width) == 1);
        assert(unit_back(v, p, width));
        assert(visual_lines(v, p, width) == 1);
        assert(v.lines.lines[p].next == a && linked_back(v, p));
        lemma_roll_back(v, p, spent + 1, budget, width, end, y);
        lemma_above(v, p);
        assert(roll_back(v, a, spent, budget, width) == roll_back(v, p, spent + 1, budget, width));
        assert(above(v, a) == 1 + above(v, p));
        assert(window_cost(v, p, end, width) == 1 + window_cost(v, a, end, width));
        assert(window_has(v, a, end, y) ==> window_has(v, p, end, y));
    } else {
        assert(roll_back(v, a, spent, budget, width) == (a, spent));
        assert(spent < budget ==> above(v, a) == 0);
    }
}

/// Where rows take one line each, going on from row `b` covers one row for
/// each line of the budget, as far as the rows from `b` on reach.
pub proof fn lemma_roll_forward(v: TreeView, b: int, spent: int, budget: int, width: int)
    requires
        v.wf(),
        0 <= b < v.lines.lines.len(),
        unit_on(v, b, width),
    ensures
        ({
            let (e, sp, ran_out) = roll_forward(v, b, spent, budget, width);
            &&& b <= e <= v.lines.lines.len()
            &&& (budget <= spent ==> e == b && !ran_out && sp == spent)
            &&& (budget > spent ==> {
                &&& b < e
                &&& window_cost(v, b, e, width) == least(budget - spent, below(v, b))
                &&& ran_out == (below(v, b) <= budget - spent)
                &&& (ran_out ==> sp == spent + below(v, b) - 1)
                &&& window_has(v, b, e, b)
            })
        }),
    decreases v.lines.lines.len() - b,
{
    lemma_lines_len(v.lines, v.depths());
    lemma_line(v.lines, v.depths(), b);
    let next = v.lines.lines[b].next as int;
    assert(visual_lines(v, b, width) == 1);
    if spent < budget {
        if next < v.lines.lines.len() {
            lemma_roll_forward(v, next, spent + 1, budget, width);
            lemma_line(v.lines, v.depths(), next);
            lemma_below(v, next);
            let e = roll_forward(v, b, spent, budget, width).0;
            assert(roll_forward(v, b, spent, budget, width) == roll_forward(
                v,
                next,
                spent + 1,
                budget,
                width,
            ));
            assert(below(v, b) == 1 + below(v, next));
            assert(next <= e);
            assert(window_cost(v, b, e, width) == 1 + window_cost(v, next, e, width));
            assert(window_cost(v, next, next, width) == 0);
            assert(window_has(v, b, e, b));
        } else {
            assert(roll_forward(v, b, spent, budget, width) == (b + 1, spent, true));
            assert(below(v, b) == 1);
            assert(window_cost(v, next, b + 1, width) == 0);
            assert(window_cost(v, b, b + 1, width) == 1);
            assert(window_has(v, b, b + 1, b));
        }
    } else {
        assert(roll_forward(v, b, spent, budget, width) == (b, spent, false));
    }
}

/// The window around the focus, where every row of the list through the
/// focus takes one line of the display and the list is linked both ways from
/// the focus back: the window covers as many lines as were asked for, or all
/// the rows of the list if those are fewer; and if any line was asked for,
/// the row in focus is among its rows.
pub proof fn lemma_window_coverage(v: TreeView, y: int, n: int, width: int)
    requires
        v.wf(),
        0 <= y < v.lines.lines.len(),
        0 <= n,
        unit_back(v, y, width),
        unit_on(v, y, width),
        linked_back(v, y),
    ensures
        ({
            let (start, end) = window(v, y, n, width);
            &&& 0 <= start <= y <= end <= v.lines.lines.len()
            &&& window_cost(v, start, end, width) == least(n, above(v, y) + below(v, y))
            &&& window_cost(v, start, end, width) <= n
            &&& (n >= 1 ==> y < end && window_has(v, start, end, y))
        }),
{
    let space = n / 2;
    let (s1, sp1) = roll_back(v, y, 0, space, width);
    let start_diff = if sp1 < space {
        space - sp1
    } else {
        0
    };
    let end_max = space + n % 2 + start_diff;
    let (end, sp2, ran_out) = roll_forward(v, y, 0, end_max, width);
    let end_diff = if ran_out {
        end_max - sp2 - 1
    } else {
        0
    };
    lemma_roll_forward(v, y, 0, end_max, width);
    lemma_roll_back(v, y, 0, space, width, end, y);
    lemma_roll_back(v, s1, 0, end_diff, width, end, y);
    assert(above(v, y) >= 0) by {
        lemma_above(v, y);
    }
    assert(below(v, y) >= 1) by {
        lemma_below(v, y);
    }
    assert(above(v, s1) >= 0) by {
        lemma_above(v, s1);
    }
}

/// There are no fewer than no rows before a row.
pub proof fn lemma_above(v: TreeView, l: int)
    ensures
        above(v, l) >= 0,
    decreases l,
{
    let prev = v.lines.lines[l].prev;
    if prev is Some && 0 <= prev.unwrap() < l {
        lemma_above(v, prev.unwrap() as int);
    }
}

/// The rows from a row on include that row.
pub proof fn lemma_below(v: TreeView, l: int)
    ensures
        below(v, l) >= 1,
    decreases v.lines.lines.len() - l,
{
    let next = v.lines.lines[l].next as int;
    if 0 <= l < next < v.lines.lines.len() {
        lemma_below(v, next);
    }
}

} // verus!
