//! What a key does to the tree on display.

use vstd::prelude::*;
use crate::render::TreeRender;
use crate::tree::TreeView;

verus! {

/// A key that was pressed.
#[derive(Debug, Clone, Copy, PartialEq, Eq, Structural)]
pub enum Key {
    Left,
    Right,
    Up,
    Down,
    Esc,
    Char(char),
    Ctrl(char),
    /// Any other key.
    Other,
}

/// What the display is asked to do.
#[derive(Debug, Clone, Copy, PartialEq, Eq, Structural)]
pub enum Command {
    FocusUp,
    FocusDown,
    FocusLeft,
    FocusRight,
    ToggleFold,
    /// End the session.
    Quit,
    /// Nothing but drawing the tree again.
    Redraw,
}

/// What a key asks for. The tree grows to the right, so the keys that point
/// left and right move between parent and child, and those that point up and
/// down move between siblings.
pub open spec fn command_for(key: Key) -> Command {
    match key {
        Key::Left => Command::FocusUp,
        Key::Right => Command::FocusDown,
        Key::Up => Command::FocusLeft,
        Key::Down => Command::FocusRight,
        Key::Esc => Command::Quit,
        Key::Char(c) => if c == 'h' {
            Command::FocusUp
        } else if c == 'l' {
            Command::FocusDown
        } else if c == 'k' {
            Command::FocusLeft
        } else if c == 'j' {
            Command::FocusRight
        } else if c == 'f' {
            Command::ToggleFold
        } else if c == 'q' {
            Command::Quit
        } else {
            Command::Redraw
        },
        Key::Ctrl(c) => if c == 'c' {
            Command::Quit
        } else {
            Command::Redraw
        },
        Key::Other => Command::Redraw,
    }
}

/// What a key asks for.
pub fn key_command(key: Key) -> (c: Command)
    ensures
        c == command_for(key),
{
    match key {
        Key::Left | Key::Char('h') => Command::FocusUp,
        Key::Right | Key::Char('l') => Command::FocusDown,
        Key::Up | Key::Char('k') => Command::FocusLeft,
        Key::Down | Key::Char('j') => Command::FocusRight,
        Key::Char('f') => Command::ToggleFold,
        Key::Esc | Key::Char('q') | Key::Ctrl('c') => Command::Quit,
        _ => Command::Redraw,
    }
}

/// The tree after a command was carried out.
pub open spec fn after(v: TreeView, c: Command) -> TreeView {
    match c {
        Command::FocusUp => v.focus_up(),
        Command::FocusDown => v.focus_down(),
        Command::FocusLeft => v.focus_left(),
        Command::FocusRight => v.focus_right(),
        Command::ToggleFold => v.toggle_focus_fold(),
        Command::Quit => v,
        Command::Redraw => v,
    }
}

/// Carries out what a key asks for, and says whether the session goes on
/// and the tree is to be drawn again. Every key can be handled in every
/// state of the tree.
pub fn navigate(render: &mut TreeRender, key: Key) -> (go_on: bool)
    requires
        old(render).wf(),
    ensures
        final(render).wf(),
        final(render)@ == after(old(render)@, command_for(key)),
        final(render).opts == old(render).opts,
        go_on == (command_for(key) != Command::Quit),
        *final(final(render).tree) == *final(old(render).tree),
{
    match key_command(key) {
        Command::FocusUp => {
            render.focus_up();
            true
        },
        Command::FocusDown => {
            render.focus_down();
            true
        },
        Command::FocusLeft => {
            render.focus_left();
            true
        },
        Command::FocusRight => {
            render.focus_right();
            true
        },
        Command::ToggleFold => {
            render.toggle_focus_fold();
            true
        },
        Command::Quit => false,
        Command::Redraw => true,
    }
}

} // verus!
