use ttyama::input::{decide, KeyAction, KeyCode, KeyEvent, KeyModifiers};
use ttyama::layout::Rect;
use ttyama::ui::button::{Button, ButtonStyle, Shade};
use ttyama::ui::{Direction, UIObject};
use ttyama::utils::Auxiliaries;

fn no_mods() -> KeyModifiers {
    KeyModifiers { shift: false, control: false, alt: false, super_key: false, hyper: false, meta: false }
}

fn ctrl() -> KeyModifiers {
    KeyModifiers { control: true, ..no_mods() }
}

fn key(code: KeyCode, modifiers: KeyModifiers) -> KeyEvent {
    KeyEvent { code, modifiers }
}

#[test]
fn modifiers_empty_and_control() {
    assert!(no_mods().is_empty());
    assert!(!no_mods().contains_control());
    assert!(!ctrl().is_empty());
    assert!(ctrl().contains_control());
    let alt = KeyModifiers { alt: true, ..no_mods() };
    assert!(!alt.is_empty());
    assert!(!alt.contains_control());
}

#[test]
fn ctrl_q_quits() {
    assert_eq!(decide(&key(KeyCode::Char('q'), ctrl())), KeyAction::Quit);
    let ctrl_shift = KeyModifiers { shift: true, ..ctrl() };
    assert_eq!(decide(&key(KeyCode::Char('q'), ctrl_shift)), KeyAction::Quit);
}

#[test]
fn plain_q_is_forwarded() {
    assert_eq!(decide(&key(KeyCode::Char('q'), no_mods())), KeyAction::Forward);
    assert_eq!(decide(&key(KeyCode::Char('x'), ctrl())), KeyAction::Forward);
}

#[test]
fn arrows_navigate_without_modifiers() {
    assert_eq!(decide(&key(KeyCode::Up, no_mods())), KeyAction::Navigate(Direction::Up));
    assert_eq!(decide(&key(KeyCode::Down, no_mods())), KeyAction::Navigate(Direction::Down));
    assert_eq!(decide(&key(KeyCode::Left, no_mods())), KeyAction::Navigate(Direction::Left));
    assert_eq!(decide(&key(KeyCode::Right, no_mods())), KeyAction::Navigate(Direction::Right));
}

#[test]
fn arrows_with_modifiers_are_forwarded() {
    let shift = KeyModifiers { shift: true, ..no_mods() };
    assert_eq!(decide(&key(KeyCode::Up, shift)), KeyAction::Forward);
    assert_eq!(decide(&key(KeyCode::Left, ctrl())), KeyAction::Forward);
}

#[test]
fn other_keys_are_forwarded() {
    assert_eq!(decide(&key(KeyCode::Enter, no_mods())), KeyAction::Forward);
    assert_eq!(decide(&key(KeyCode::Other, no_mods())), KeyAction::Forward);
}

#[test]
fn button_new_and_label() {
    let mut b = Button::new(Rect::new(2, 2, 10, 3), "New Chat");
    assert_eq!(b.label(), "New Chat");
    assert_eq!(b.get_area(), Rect { x: 2, y: 2, width: 10, height: 3 });
    assert!(!b.is_focused());
    b.set_label(String::from("Other"));
    assert_eq!(b.label(), "Other");
    assert_eq!(b.get_area(), Rect { x: 2, y: 2, width: 10, height: 3 });
}

#[test]
fn button_focus_and_style() {
    let mut b = Button::new(Rect::new(0, 0, 4, 3), "ok");
    assert_eq!(b.style(), ButtonStyle { fg: Shade::Gray, bg: Shade::Black });
    b.set_focused(true);
    assert!(b.is_focused());
    assert_eq!(b.style(), ButtonStyle { fg: Shade::White, bg: Shade::Gray });
    b.set_focused(false);
    assert!(!b.is_focused());
    assert_eq!(b.style(), ButtonStyle { fg: Shade::Gray, bg: Shade::Black });
}

#[test]
fn button_pressed_by_plain_enter_only() {
    let b = Button::new(Rect::new(0, 0, 4, 3), "ok");
    assert!(b.activated_by(&key(KeyCode::Enter, no_mods())));
    assert!(!b.activated_by(&key(KeyCode::Enter, ctrl())));
    assert!(!b.activated_by(&key(KeyCode::Char('\n'), no_mods())));
}

#[test]
fn button_relative_direction() {
    let b = Button::new(Rect::new(0, 0, 10, 3), "a");
    assert_eq!(b.relative_direction(Rect::new(20, 0, 10, 3)), Direction::Right);
    assert_eq!(b.relative_direction(Rect::new(0, 10, 10, 3)), Direction::Down);
}

#[test]
fn ignore_discards() {
    let r: Result<u8, u8> = Err(3);
    r.ignore();
    5u32.ignore();
}

#[test]
fn set_focused_keeps_label_and_area() {
    let mut b = Button::new(Rect::new(1, 1, 8, 3), "keep");
    b.set_focused(true);
    assert_eq!(b.label(), "keep");
    assert_eq!(b.get_area(), Rect::new(1, 1, 8, 3));
}
