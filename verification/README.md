# ttyama

A terminal chat client's user-interface core, verified with Verus.

- `src/layout.rs`: rectangles of terminal cells (`Rect::new` clamps like ratatui's).
- `src/ui/mod.rs`: directions between rectangles and the `UIObject` trait.
- `src/ui/ui_tree.rs`: the spatial focus tree: insertion by position, movement
  along links, focus navigation and the drawing order, with proofs that every
  operation keeps the tree well formed and that drawing visits each object once.
- `src/ui/button.rs`: the button widget's state, style and key handling.
- `src/input.rs`: what the main loop does with a key press.
- `app/`: the terminal program (crossterm, ratatui, log file and log server).
