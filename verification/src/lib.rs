//! Spatial focus tree for a terminal user interface: widgets are placed in a
//! tree whose links follow their relative position on screen, and keyboard
//! navigation moves the focus along those links.

pub mod input;
pub mod layout;
pub mod ui;
pub mod utils;
