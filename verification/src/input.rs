use crate::ui::Direction;
use vstd::prelude::*;

verus! {

/// The key of a key press, as far as the user interface tells keys apart.
#[derive(Debug, Clone, Copy, PartialEq, Eq, Structural)]
pub enum KeyCode {
    Up,
    Down,
    Left,
    Right,
    Enter,
    Char(char),
    /// Any other key.
    Other,
}

/// The modifier keys held during a key press.
#[derive(Debug, Clone, Copy, PartialEq, Eq, Structural)]
pub struct KeyModifiers {
    pub shift: bool,
    pub control: bool,
    pub alt: bool,
    pub super_key: bool,
    pub hyper: bool,
    pub meta: bool,
}

/// A key press: the key and the modifiers held with it.
#[derive(Debug, Clone, Copy, PartialEq, Eq, Structural)]
pub struct KeyEvent {
    pub code: KeyCode,
    pub modifiers: KeyModifiers,
}

impl KeyModifiers {
    /// No modifier is held.
    pub open spec fn none_held(self) -> bool {
        !self.shift && !self.control && !self.alt && !self.super_key && !self.hyper && !self.meta
    }

    /// Whether no modifier is held.
    pub fn is_empty(&self) -> (b: bool)
        ensures
            b == self.none_held(),
    {
        !self.shift && !self.control && !self.alt && !self.super_key && !self.hyper && !self.meta
    }

    /// Whether the control key is held (whatever else is held with it).
    pub fn contains_control(&self) -> (b: bool)
        ensures
            b == self.control,
    {
        self.control
    }
}

/// What the main loop does with a key press.
#[derive(Debug, Clone, Copy, PartialEq, Eq, Structural)]
pub enum KeyAction {
    /// Leave the program.
    Quit,
    /// Move the focus in this direction.
    Navigate(Direction),
    /// Hand the key press to the object that holds the focus.
    Forward,
}

/// The direction an arrow key points to; `None` for every other key.
pub open spec fn arrow_direction(code: KeyCode) -> Option<Direction> {
    if code == KeyCode::Up {
        Some(Direction::Up)
    } else if code == KeyCode::Down {
        Some(Direction::Down)
    } else if code == KeyCode::Left {
        Some(Direction::Left)
    } else if code == KeyCode::Right {
        Some(Direction::Right)
    } else {
        None
    }
}

/// Only control-q quits; only an arrow key without modifiers moves the
/// focus, towards the arrow's direction; every other key press, every typed
/// character among them, goes to the focused object.
pub proof fn lemma_key_action_laws(event: KeyEvent)
    ensures
        (key_action(event) == KeyAction::Quit) <==> (event.code == KeyCode::Char('q')
            && event.modifiers.control),
        key_action(event) matches KeyAction::Navigate(d) ==> arrow_direction(event.code) == Some(d)
            && event.modifiers.none_held(),
        arrow_direction(event.code) matches Some(d) ==> (event.modifiers.none_held() ==> key_action(
            event,
        ) == KeyAction::Navigate(d)),
        arrow_direction(event.code) is None && !(event.code == KeyCode::Char('q')
            && event.modifiers.control) ==> key_action(event) == KeyAction::Forward,
{
}

/// Control-q quits; an arrow key without modifiers moves the focus; every
/// other key press goes to the focused object.
pub open spec fn key_action(event: KeyEvent) -> KeyAction {
    if event.code == KeyCode::Char('q') && event.modifiers.control {
        KeyAction::Quit
    } else if event.modifiers.none_held() {
        match event.code {
            KeyCode::Up => KeyAction::Navigate(Direction::Up),
            KeyCode::Down => KeyAction::Navigate(Direction::Down),
            KeyCode::Left => KeyAction::Navigate(Direction::Left),
            KeyCode::Right => KeyAction::Navigate(Direction::Right),
            _ => KeyAction::Forward,
        }
    } else {
        KeyAction::Forward
    }
}

/// Decides what the main loop does with a key press.
pub fn decide(event: &KeyEvent) -> (a: KeyAction)
    ensures
        a == key_action(*event),
        (a == KeyAction::Quit) <==> (event.code == KeyCode::Char('q') && event.modifiers.control),
        a matches KeyAction::Navigate(d) ==> arrow_direction(event.code) == Some(d)
            && event.modifiers.none_held(),
        arrow_direction(event.code) matches Some(d) ==> (event.modifiers.none_held() ==> a
            == KeyAction::Navigate(d)),
        arrow_direction(event.code) is None && !(event.code == KeyCode::Char('q')
            && event.modifiers.control) ==> a == KeyAction::Forward,
{
    let code = event.code;
    if code == KeyCode::Char('q') && event.modifiers.contains_control() {
        KeyAction::Quit
    } else if (code == KeyCode::Up || code == KeyCode::Down || code == KeyCode::Right || code
        == KeyCode::Left) && event.modifiers.is_empty() {
        match code {
            KeyCode::Up => KeyAction::Navigate(Direction::Up),
            KeyCode::Down => KeyAction::Navigate(Direction::Down),
            KeyCode::Left => KeyAction::Navigate(Direction::Left),
            _ => KeyAction::Navigate(Direction::Right),
        }
    } else {
        KeyAction::Forward
    }
}

} // verus!
