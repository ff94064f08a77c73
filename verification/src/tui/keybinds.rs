//! The actions of the terminal interface and the keys that trigger them.

use vstd::prelude::*;

verus! {

/// What a key press asks the interface to do.
#[derive(Debug, Clone, Copy, PartialEq, Eq, Structural)]
pub enum Action {
    Quit,
    NextTab,
    PrevTab,
    Up,
    Down,
    Left,
    Right,
    Select,
    ToggleCheckbox,
    SelectAll,
    Search,
    DryRun,
    Execute,
    Refresh,
    Help,
    AddMountpoint,
    DeleteMountpoint,
    Nothing,
}

/// A key press, as far as the interface tells keys apart.
#[derive(Debug, Clone, Copy, PartialEq, Eq, Structural)]
pub enum Key {
    Char(char),
    Tab,
    BackTab,
    Up,
    Down,
    Left,
    Right,
    Enter,
    Esc,
    Backspace,
    Other,
}

/// The action bound to a key: `q` quits, Tab and Shift-Tab change tab, the
/// arrows and `h`/`j`/`k`/`l` move, Enter selects, Space toggles, `a`
/// selects all, `/` searches, `d` dry-runs, `x`/`e` executes, `r`
/// rescans, `?` asks for help (letters in either case where both are bound).
pub open spec fn key_action(k: Key) -> Action {
    match k {
        Key::Char(c) => {
            if c == 'q' || c == 'Q' { Action::Quit }
            else if c == 'k' { Action::Up }
            else if c == 'j' { Action::Down }
            else if c == 'h' { Action::Left }
            else if c == 'l' { Action::Right }
            else if c == ' ' { Action::ToggleCheckbox }
            else if c == 'a' || c == 'A' { Action::SelectAll }
            else if c == '/' { Action::Search }
            else if c == 'd' || c == 'D' { Action::DryRun }
            else if c == 'x' || c == 'e' || c == 'E' { Action::Execute }
            else if c == 'r' || c == 'R' { Action::Refresh }
            else if c == '?' { Action::Help }
            else { Action::Nothing }
        },
        Key::Tab => Action::NextTab,
        Key::BackTab => Action::PrevTab,
        Key::Up => Action::Up,
        Key::Down => Action::Down,
        Key::Left => Action::Left,
        Key::Right => Action::Right,
        Key::Enter => Action::Select,
        _ => Action::Nothing,
    }
}

/// The action bound to `key` (see `key_action`).
pub fn map_key(key: Key) -> (r: Action)
    ensures
        r == key_action(key),
{
    match key {
        Key::Char(c) => {
            if c == 'q' || c == 'Q' { Action::Quit }
            else if c == 'k' { Action::Up }
            else if c == 'j' { Action::Down }
            else if c == 'h' { Action::Left }
            else if c == 'l' { Action::Right }
            else if c == ' ' { Action::ToggleCheckbox }
            else if c == 'a' || c == 'A' { Action::SelectAll }
            else if c == '/' { Action::Search }
            else if c == 'd' || c == 'D' { Action::DryRun }
            else if c == 'x' || c == 'e' || c == 'E' { Action::Execute }
            else if c == 'r' || c == 'R' { Action::Refresh }
            else if c == '?' { Action::Help }
            else { Action::Nothing }
        },
        Key::Tab => Action::NextTab,
        Key::BackTab => Action::PrevTab,
        Key::Up => Action::Up,
        Key::Down => Action::Down,
        Key::Left => Action::Left,
        Key::Right => Action::Right,
        Key::Enter => Action::Select,
        _ => Action::Nothing,
    }
}

} // verus!
