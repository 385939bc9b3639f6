use ttyama::layout::Rect;
use ttyama::ui::button::Button;
use ttyama::ui::ui_tree::{UITree, UITreeNode};
use ttyama::ui::{Direction, UIObject};

fn button(x: u16, y: u16, label: &str) -> Button {
    Button::new(Rect::new(x, y, 10, 3), label)
}

fn current_label(t: &UITree<Button>) -> Option<String> {
    t.with_current(|b: &Button| b.label().to_string())
}

#[test]
fn node_new_holds_object() {
    let n = UITreeNode::new(button(0, 0, "a"));
    let _ = n;
}

#[test]
fn empty_tree() {
    let mut t: UITree<Button> = UITree::new();
    assert_eq!(current_label(&t), None);
    assert!(t.render_order().is_empty());
    assert!(!t.move_dir(Direction::Up));
    assert!(!t.navigate(Direction::Right));
    assert_eq!(t.with_relative(Direction::Left, |_b: &Button| 1), None);
    assert!(t.can_insert(Rect::new(0, 0, 1, 1)));
}

#[test]
fn first_insert_becomes_current() {
    let mut t = UITree::new();
    t.insert(button(2, 2, "New Chat"));
    assert_eq!(current_label(&t), Some("New Chat".to_string()));
    assert_eq!(t.render_order(), vec![0]);
    for d in [Direction::Up, Direction::Down, Direction::Left, Direction::Right] {
        assert!(t.with_relative(d, |_b: &Button| ()).is_none());
    }
}

#[test]
fn insert_links_both_ways() {
    let mut t = UITree::new();
    t.insert(button(0, 0, "a"));
    t.insert(button(20, 0, "b"));
    // current stays on the first object
    assert_eq!(current_label(&t), Some("a".to_string()));
    assert_eq!(
        t.with_relative(Direction::Right, |b: &Button| b.label().to_string()),
        Some("b".to_string())
    );
    assert!(t.move_dir(Direction::Right));
    assert_eq!(current_label(&t), Some("b".to_string()));
    assert!(!t.move_dir(Direction::Right));
    assert!(!t.move_dir(Direction::Up));
    assert!(t.move_dir(Direction::Left));
    assert_eq!(current_label(&t), Some("a".to_string()));
}

#[test]
fn insert_follows_existing_links() {
    let mut t = UITree::new();
    t.insert(button(0, 0, "a"));
    t.insert(button(20, 0, "b"));
    t.insert(button(40, 0, "c"));
    // c goes right of a, where b already is, so it is attached right of b
    assert!(t.with_relative(Direction::Right, |b: &Button| b.label() == "b").unwrap());
    assert!(t.move_dir(Direction::Right));
    assert!(t.move_dir(Direction::Right));
    assert_eq!(current_label(&t), Some("c".to_string()));
    assert!(t.move_dir(Direction::Left));
    assert!(t.move_dir(Direction::Left));
    assert_eq!(current_label(&t), Some("a".to_string()));
}

#[test]
fn insert_from_moved_current_goes_up_the_tree() {
    let mut t = UITree::new();
    t.insert(button(0, 10, "a"));
    t.insert(button(20, 10, "b"));
    assert!(t.move_dir(Direction::Right));
    // from b, an object far to the left goes through a and lands left of it
    t.insert(button(0, 20, "c"));
    assert_eq!(current_label(&t), Some("b".to_string()));
    assert!(t.move_dir(Direction::Left));
    assert_eq!(current_label(&t), Some("a".to_string()));
    assert!(t.move_dir(Direction::Down));
    assert_eq!(current_label(&t), Some("c".to_string()));
}

#[test]
fn insert_that_would_turn_back_is_refused() {
    let mut t = UITree::new();
    t.insert(button(0, 0, "a"));
    t.insert(button(40, 0, "b"));
    // right of a, but left of b: the search would go back to a
    assert!(!t.can_insert(Rect::new(20, 0, 10, 3)));
    // right of b too: attached right of b
    assert!(t.can_insert(Rect::new(60, 0, 10, 3)));
    // below a: attached below a
    assert!(t.can_insert(Rect::new(0, 20, 10, 3)));
}

#[test]
fn render_order_visits_each_once() {
    let mut t = UITree::new();
    t.insert(button(20, 20, "centre"));
    t.insert(button(40, 20, "right"));
    t.insert(button(20, 40, "below"));
    t.insert(button(20, 0, "above"));
    t.insert(button(0, 20, "left"));
    t.insert(button(60, 20, "far right"));
    // from the centre: right subtree (far right, then right), below, above, left, centre
    assert_eq!(t.render_order(), vec![5, 1, 2, 3, 4, 0]);
    assert!(t.move_dir(Direction::Right));
    // from "right": its right child, then the rest through its parent
    assert_eq!(t.render_order(), vec![5, 2, 3, 4, 0, 1]);
    let order = t.render_order();
    let mut seen = order.clone();
    seen.sort();
    assert_eq!(seen, vec![0, 1, 2, 3, 4, 5]);
    assert_eq!(t.get(order[0]).label(), "far right");
}

#[test]
fn navigate_moves_focus() {
    let mut t = UITree::new();
    t.insert(button(0, 0, "a"));
    t.insert(button(20, 0, "b"));
    assert!(!t.navigate(Direction::Up));
    assert_eq!(t.with_current(|b: &Button| b.is_focused()), Some(true));
    assert!(t.navigate(Direction::Right));
    assert_eq!(current_label(&t), Some("b".to_string()));
    assert_eq!(t.with_current(|b: &Button| b.is_focused()), Some(true));
    assert!(!t.get(0).is_focused());
    assert!(t.navigate(Direction::Left));
    assert!(t.get(0).is_focused());
    assert!(!t.get(1).is_focused());
}

#[test]
fn with_current_mut_changes_only_current() {
    let mut t = UITree::new();
    t.insert(button(0, 0, "a"));
    t.insert(button(0, 20, "b"));
    let r = t.with_current_mut(|b: &mut Button| {
        b.set_label(String::from("changed"));
        7
    });
    assert_eq!(r, Some(7));
    assert_eq!(t.get(0).label(), "changed");
    assert_eq!(t.get(1).label(), "b");
    assert!(t.move_dir(Direction::Down));
}

#[test]
fn first_insert_needs_no_direction() {
    let mut t = UITree::new();
    let huge = Rect { x: 65535, y: 65535, width: 65535, height: 65535 };
    t.insert(Button::new(huge, "huge"));
    assert_eq!(current_label(&t), Some("huge".to_string()));
    assert_eq!(t.render_order(), vec![0]);
}

#[test]
fn move_and_move_back() {
    let mut t = UITree::new();
    t.insert(button(0, 10, "a"));
    t.insert(button(0, 0, "b"));
    t.insert(button(30, 10, "c"));
    for d in [Direction::Up, Direction::Right] {
        assert!(t.move_dir(d));
        assert!(t.move_dir(d.reverse()));
        assert_eq!(current_label(&t), Some("a".to_string()));
    }
    // an object between a and b would send the search back: refused
    assert!(!t.can_insert(Rect::new(0, 5, 10, 2)));
}

#[test]
fn new_tree_has_no_neighbours() {
    let t: UITree<Button> = UITree::new();
    for d in [Direction::Up, Direction::Down, Direction::Left, Direction::Right] {
        assert_eq!(t.with_relative(d, |_b: &Button| 1), None);
    }
    assert_eq!(t.with_current(|_b: &Button| 1), None);
}
