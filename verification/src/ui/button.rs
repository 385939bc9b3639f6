use crate::input::{KeyCode, KeyEvent};
use crate::layout::Rect;
use crate::ui::UIObject;
use vstd::prelude::*;

verus! {

/// A shade that a button is drawn in.
#[derive(Debug, Clone, Copy, PartialEq, Eq, Structural)]
pub enum Shade {
    White,
    Gray,
    Black,
}

/// The colours a button is drawn in: text and background.
#[derive(Debug, Clone, Copy, PartialEq, Eq, Structural)]
pub struct ButtonStyle {
    pub fg: Shade,
    pub bg: Shade,
}

/// A labelled button that occupies an area of the screen and is pressed with
/// Enter while it holds the focus.
pub struct Button {
    area: Rect,
    focused: bool,
    label: String,
}

impl Button {
    /// The button's label.
    pub closed spec fn label_view(&self) -> Seq<char> {
        self.label@
    }

    /// An unfocused button labelled `label` occupying `area`.
    pub fn new(area: Rect, label: &str) -> (b: Button)
        ensures
            b.area() == area,
            !b.focused(),
            b.label_view() == label@,
    {
        proof {
            broadcast use vstd::string::to_string_from_display_ensures_for_str;
        }
        Button { area, label: label.to_string(), focused: false }
    }

    /// Replaces the label.
    pub fn set_label(&mut self, l: String)
        ensures
            final(self).label_view() == l@,
            final(self).area() == old(self).area(),
            final(self).focused() == old(self).focused(),
    {
        self.label = l;
    }

    /// The label, for drawing.
    pub fn label(&self) -> (s: &str)
        ensures
            s@ == self.label_view(),
    {
        self.label.as_str()
    }

    /// The colours to draw the button in: white on gray while focused, gray
    /// on black otherwise.
    pub fn style(&self) -> (s: ButtonStyle)
        ensures
            s == (if self.focused() {
                ButtonStyle { fg: Shade::White, bg: Shade::Gray }
            } else {
                ButtonStyle { fg: Shade::Gray, bg: Shade::Black }
            }),
    {
        if self.focused {
            ButtonStyle { fg: Shade::White, bg: Shade::Gray }
        } else {
            ButtonStyle { fg: Shade::Gray, bg: Shade::Black }
        }
    }

    /// Whether a key press handed to this button presses it: Enter without
    /// modifiers.
    pub fn activated_by(&self, event: &KeyEvent) -> (b: bool)
        ensures
            b == (event.code == KeyCode::Enter && event.modifiers.none_held()),
    {
        event.code == KeyCode::Enter && event.modifiers.is_empty()
    }
}

impl UIObject for Button {
    closed spec fn area(&self) -> Rect {
        self.area
    }

    closed spec fn focused(&self) -> bool {
        self.focused
    }

    fn get_area(&self) -> (r: Rect) {
        self.area
    }

    fn set_focused(&mut self, v: bool)
        ensures
            final(self).label_view() == old(self).label_view(),
    {
        self.focused = v;
    }

    fn is_focused(&self) -> (b: bool) {
        self.focused
    }
}

} // verus!
