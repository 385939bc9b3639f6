use vstd::prelude::*;

verus! {

/// A rectangle of terminal cells: its top left corner and its size.
#[derive(Debug, Clone, Copy, PartialEq, Eq, Structural)]
pub struct Rect {
    pub x: u16,
    pub y: u16,
    pub width: u16,
    pub height: u16,
}

/// An extent (width or height) as a rectangle starting at coordinate
/// `start` keeps it: unchanged when the rectangle then ends at `u16::MAX` at
/// the latest, and cut down to end exactly there otherwise.
pub open spec fn clamp_extent(start: u16, extent: u16) -> u16 {
    if extent > u16::MAX - start {
        (u16::MAX - start) as u16
    } else {
        extent
    }
}

/// Calls `ratatui::layout::Rect::new`, which keeps the corner and clamps the
/// width and the height so that the rectangle ends at `u16::MAX` at the latest
/// (as its source shows), and hands back the fields of the result.
#[verifier::external_body]
fn ratatui_rect_new(x: u16, y: u16, width: u16, height: u16) -> (r: Rect)
    ensures
        r.x == x,
        r.y == y,
        r.width == clamp_extent(x, width),
        r.height == clamp_extent(y, height),
{
    let r = ratatui::layout::Rect::new(x, y, width, height);
    Rect { x: r.x, y: r.y, width: r.width, height: r.height }
}

impl Rect {
    /// A rectangle at `(x, y)`; a width or height that would reach past the
    /// last cell is clamped so that the rectangle ends there.
    pub fn new(x: u16, y: u16, width: u16, height: u16) -> (r: Rect)
        ensures
            r.x == x,
            r.y == y,
            r.width == clamp_extent(x, width),
            r.height == clamp_extent(y, height),
            r.x + r.width <= u16::MAX,
            r.y + r.height <= u16::MAX,
    {
        ratatui_rect_new(x, y, width, height)
    }

    /// Whether the rectangle's centre is an addressable cell.
    pub fn center_in_range(&self) -> (b: bool)
        ensures
            b == self.center_fits(),
    {
        (self.x as u32) + (self.width as u32) / 2 <= 65535 && (self.y as u32) + (self.height as u32)
            / 2 <= 65535
    }

    /// Column of the rectangle's centre, rounded towards its left edge.
    pub open spec fn center_x(self) -> int {
        self.x + self.width / 2
    }

    /// Row of the rectangle's centre, rounded towards its top edge.
    pub open spec fn center_y(self) -> int {
        self.y + self.height / 2
    }

    /// The centre of the rectangle is an addressable cell.
    pub open spec fn center_fits(self) -> bool {
        self.center_x() <= u16::MAX && self.center_y() <= u16::MAX
    }
}

} // verus!
