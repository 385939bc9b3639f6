pub mod button;
pub mod ui_tree;

use crate::layout::Rect;
use crate::ui::ui_tree::UITree;
use vstd::prelude::*;

verus! {

/// One of the four directions in which focus can move on screen.
#[derive(Debug, Clone, Copy, PartialEq, Eq, Structural)]
pub enum Direction {
    Up,
    Down,
    Left,
    Right,
}

/// Absolute value of an integer.
pub open spec fn abs(v: int) -> int {
    if v < 0 {
        -v
    } else {
        v
    }
}

/// The direction of the displacement `(dx, dy)`: the larger component
/// decides; a tie (and a zero displacement) is vertical, and a zero
/// vertical component counts as downwards.
pub open spec fn direction_of(dx: int, dy: int) -> Direction {
    if abs(dx) > abs(dy) {
        if dx < 0 {
            Direction::Left
        } else {
            Direction::Right
        }
    } else {
        if dy < 0 {
            Direction::Up
        } else {
            Direction::Down
        }
    }
}

/// The direction in which the centre of `to` lies, seen from the centre of
/// `from`.
pub open spec fn spec_direction(from: Rect, to: Rect) -> Direction {
    direction_of(to.center_x() - from.center_x(), to.center_y() - from.center_y())
}

impl Direction {
    /// The direction that points back.
    pub open spec fn opposite(self) -> Direction {
        match self {
            Direction::Up => Direction::Down,
            Direction::Down => Direction::Up,
            Direction::Left => Direction::Right,
            Direction::Right => Direction::Left,
        }
    }

    /// The direction that points back (executable form of `opposite`).
    pub fn reverse(self) -> (r: Direction)
        ensures
            r == self.opposite(),
    {
        match self {
            Direction::Up => Direction::Down,
            Direction::Down => Direction::Up,
            Direction::Left => Direction::Right,
            Direction::Right => Direction::Left,
        }
    }

    /// The direction from the centre of `a1` to the centre of `a2`.
    pub fn direction(a1: Rect, a2: Rect) -> (d: Self)
        requires
            a1.center_fits(),
            a2.center_fits(),
        ensures
            d == spec_direction(a1, a2),
            abs(a2.center_x() - a1.center_x()) > abs(a2.center_y() - a1.center_y()) ==> d == (if a2.center_x()
                > a1.center_x() {
                Direction::Right
            } else {
                Direction::Left
            }),
            abs(a2.center_x() - a1.center_x()) <= abs(a2.center_y() - a1.center_y()) ==> d == (if a2.center_y()
                < a1.center_y() {
                Direction::Up
            } else {
                Direction::Down
            }),
    {
        let c1: (u16, u16) = (a1.x + a1.width / 2, a1.y + a1.height / 2);
        let c2: (u16, u16) = (a2.x + a2.width / 2, a2.y + a2.height / 2);
        let dvec: (i32, i32) = (c2.0 as i32 - c1.0 as i32, c2.1 as i32 - c1.1 as i32);
        let abs_x: i32 = if dvec.0 < 0 { -dvec.0 } else { dvec.0 };
        let abs_y: i32 = if dvec.1 < 0 { -dvec.1 } else { dvec.1 };
        // first, we need to determine the larger component
        if abs_x > abs_y {
            if dvec.0 < 0 {
                Direction::Left
            } else {
                Direction::Right
            }
        } else {
            if dvec.1 < 0 {
                Direction::Up
            } else {
                Direction::Down
            }
        }
    }
}

/// The larger component of the displacement between the centres decides:
/// horizontal when it is strictly larger, towards the side where `to` lies;
/// vertical otherwise, upwards exactly when `to` lies higher.
pub proof fn lemma_direction_larger_component(from: Rect, to: Rect)
    ensures
        ({
            let dx = to.center_x() - from.center_x();
            let dy = to.center_y() - from.center_y();
            &&& abs(dx) > abs(dy) ==> spec_direction(from, to) == (if dx > 0 {
                Direction::Right
            } else {
                Direction::Left
            })
            &&& abs(dx) <= abs(dy) ==> spec_direction(from, to) == (if dy < 0 {
                Direction::Up
            } else {
                Direction::Down
            })
        }),
{
}

/// Going one way and then back is the identity on directions.
pub proof fn lemma_opposite_involutive(d: Direction)
    ensures
        d.opposite().opposite() == d,
        d.opposite() != d,
{
}

/// Seen from the other rectangle, the direction is the opposite one, as long
/// as the two centres differ (with equal centres both sides see `Down`).
pub proof fn lemma_direction_antisymmetric(a: Rect, b: Rect)
    requires
        a.center_x() != b.center_x() || a.center_y() != b.center_y(),
    ensures
        spec_direction(b, a) == spec_direction(a, b).opposite(),
{
}

/// Every rectangle that ends within the addressable range has its centre in
/// that range too, as every rectangle made by `Rect::new` does.
pub proof fn lemma_clamped_center_fits(r: Rect)
    requires
        r.x + r.width <= u16::MAX,
        r.y + r.height <= u16::MAX,
    ensures
        r.center_fits(),
{
}

/// The state handed to an object's input handler: the tree it belongs to.
pub struct InputContext<'a, T> {
    pub(crate) ui_tree: &'a mut UITree<T>,
}

/// Something that can be placed in a `UITree`: it occupies an area of the
/// screen and can hold the keyboard focus.
pub trait UIObject {
    /// The area that the object occupies.
    spec fn area(&self) -> Rect;

    /// Whether the object holds the focus.
    spec fn focused(&self) -> bool;

    fn get_area(&self) -> (r: Rect)
        ensures
            r == self.area(),
    ;

    /// Gives or takes the focus; the object stays where it is.
    fn set_focused(&mut self, v: bool)
        ensures
            final(self).focused() == v,
            final(self).area() == old(self).area(),
    ;

    fn is_focused(&self) -> (b: bool)
        ensures
            b == self.focused(),
    ;

    /// The direction in which `area` lies, seen from this object.
    fn relative_direction(&self, area: Rect) -> (d: Direction)
        requires
            self.area().center_fits(),
            area.center_fits(),
        ensures
            d == spec_direction(self.area(), area),
    {
        Direction::direction(self.get_area(), area)
    }
}

} // verus!
